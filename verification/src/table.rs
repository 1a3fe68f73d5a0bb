//! The bucketed hash index: a key is hashed to one of a fixed set of
//! buckets, and a bucket is a list of entries with pairwise distinct keys.
//! The hash is deterministic across processes, so buckets written by one
//! run stay reachable in the next.  The table here is the in-memory image
//! of the index; storage keeps each bucket in a file of its own and needs
//! only the touched bucket in memory for any one operation.

use vstd::prelude::*;
use vstd::map::*;

use crate::chars::str_eq;
use crate::trip::Trip;
use crate::trip::TripEntry;
use crate::trip::TripEntryView;
use crate::trip::TripView;

verus! {

/// Number of buckets the on-disk table is laid out with.
pub const DEFAULT_NUM_BUCKETS: usize = 256;

pub const FNV_OFFSET: u64 = 0xcbf2_9ce4_8422_2325;

pub const FNV_PRIME: u64 = 0x0000_0100_0000_01b3;

/// FNV-1a over the characters of a key, left to right.
pub open spec fn spec_hash(s: Seq<char>) -> u64
    decreases s.len(),
{
    if s.len() == 0 {
        FNV_OFFSET
    } else {
        vstd::wrapping::u64_specs::wrapping_mul(
            spec_hash(s.drop_last()) ^ (s.last() as u64),
            FNV_PRIME,
        )
    }
}

/// The bucket a key belongs to, among `n` buckets.
pub open spec fn spec_bucket(s: Seq<char>, n: int) -> int
    recommends
        n > 0,
{
    spec_hash(s) as int % n
}

/// Hashes a key.  The result depends on the characters alone, so it is the
/// same in every process.
pub fn calculate_hash(key: &str) -> (h: u64)
    ensures
        h == spec_hash(key@),
{
    let n = key.unicode_len();
    let mut h: u64 = FNV_OFFSET;
    let mut i: usize = 0;
    while i < n
        invariant
            0 <= i <= n,
            n == key@.len(),
            h == spec_hash(key@.take(i as int)),
        decreases n - i,
    {
        let c = key.get_char(i);
        h = (h ^ (c as u64)).wrapping_mul(FNV_PRIME);
        proof {
            assert(key@.take(i as int + 1).drop_last() =~= key@.take(i as int));
            assert(key@.take(i as int + 1).last() == key@[i as int]);
        }
        i = i + 1;
    }
    proof {
        assert(key@.take(n as int) =~= key@);
    }
    h
}

/// The bucket a key belongs to.
pub fn get_bucket_index(key: &str, num_buckets: usize) -> (b: usize)
    requires
        num_buckets > 0,
    ensures
        b as int == spec_bucket(key@, num_buckets as int),
        b < num_buckets,
{
    let h = calculate_hash(key);
    (h % (num_buckets as u64)) as usize
}

/// First index whose entry bears the key, or the length when no entry
/// does.
pub open spec fn key_index(es: Seq<TripEntryView>, k: Seq<char>) -> int
    decreases es.len(),
{
    if es.len() == 0 {
        0
    } else if es[0].key == k {
        0
    } else {
        1 + key_index(es.drop_first(), k)
    }
}

pub proof fn lemma_key_index(es: Seq<TripEntryView>, k: Seq<char>)
    ensures
        0 <= key_index(es, k) <= es.len(),
        key_index(es, k) < es.len() ==> es[key_index(es, k)].key == k,
        forall|j: int| 0 <= j < key_index(es, k) ==> es[j].key != k,
    decreases es.len(),
{
    if es.len() > 0 && es[0].key != k {
        lemma_key_index(es.drop_first(), k);
        let d = key_index(es.drop_first(), k);
        assert(forall|j: int| 0 <= j < d ==> es.drop_first()[j] == es[j + 1]);
        assert forall|j: int| 0 <= j < 1 + d implies es[j].key != k by {
            if j > 0 {
                assert(es.drop_first()[j - 1].key != k);
                assert(es.drop_first()[j - 1] == es[j]);
            }
        }
    }
}

/// `key_index` is pinned down by its two defining properties.
pub proof fn lemma_key_index_is(es: Seq<TripEntryView>, k: Seq<char>, j: int)
    requires
        0 <= j <= es.len(),
        j < es.len() ==> es[j].key == k,
        forall|t: int| 0 <= t < j ==> es[t].key != k,
    ensures
        key_index(es, k) == j,
    decreases es.len(),
{
    if es.len() > 0 && es[0].key != k {
        assert(j != 0);
        assert(forall|t: int| 0 <= t < j - 1 ==> es.drop_first()[t] == es[t + 1]);
        assert(j - 1 < es.drop_first().len() ==> es.drop_first()[j - 1] == es[j]);
        lemma_key_index_is(es.drop_first(), k, j - 1);
    }
}

/// Whether some entry bears the key.
pub open spec fn bucket_has(es: Seq<TripEntryView>, k: Seq<char>) -> bool {
    key_index(es, k) < es.len()
}

/// The record stored under the key, if any.
pub open spec fn bucket_get_spec(es: Seq<TripEntryView>, k: Seq<char>) -> Option<TripView> {
    if bucket_has(es, k) {
        Option::Some(es[key_index(es, k)].trip)
    } else {
        Option::None
    }
}

/// A bucket after storing a record under a key: the first entry with that
/// key is replaced in place, or a fresh entry is appended.
pub open spec fn bucket_insert_spec(es: Seq<TripEntryView>, k: Seq<char>, t: TripView) -> Seq<
    TripEntryView,
> {
    if bucket_has(es, k) {
        es.update(key_index(es, k), TripEntryView { key: k, trip: t })
    } else {
        es.push(TripEntryView { key: k, trip: t })
    }
}

/// A bucket after removing a key: the first entry with that key leaves,
/// later entries move up; without such an entry the bucket stands as it
/// was.
pub open spec fn bucket_remove_spec(es: Seq<TripEntryView>, k: Seq<char>) -> Seq<TripEntryView> {
    if bucket_has(es, k) {
        es.remove(key_index(es, k))
    } else {
        es
    }
}

/// Every key occurs at most once in the bucket.
pub open spec fn unique_keys(es: Seq<TripEntryView>) -> bool {
    forall|i: int, j: int| 0 <= i < j < es.len() ==> es[i].key != es[j].key
}

/// The in-memory image of the whole table: one entry list per bucket.  The
/// table's logical content is the map from each stored key to its record.
pub struct DiskHashTable {
    pub buckets: Vec<Vec<TripEntry>>,
}

impl DiskHashTable {
    pub open spec fn num_buckets(self) -> int {
        self.buckets@.len() as int
    }

    /// Ghost image of one bucket.
    pub open spec fn bucket_view(self, b: int) -> Seq<TripEntryView> {
        self.buckets@[b].deep_view()
    }

    /// Every entry lies in the bucket its key hashes to, and no bucket
    /// holds a key twice.
    pub open spec fn wf(self) -> bool {
        &&& self.num_buckets() > 0
        &&& forall|b: int, i: int|
            0 <= b < self.num_buckets() && 0 <= i < self.bucket_view(b).len() ==> spec_bucket(
                (#[trigger] self.bucket_view(b)[i]).key,
                self.num_buckets(),
            ) == b
        &&& forall|b: int|
            0 <= b < self.num_buckets() ==> unique_keys(#[trigger] self.bucket_view(b))
    }
}

impl View for DiskHashTable {
    type V = Map<Seq<char>, TripView>;

    /// The logical content: each stored key maps to its record.
    open spec fn view(&self) -> Map<Seq<char>, TripView> {
        Map::new(
            |k: Seq<char>| bucket_has(self.bucket_view(spec_bucket(k, self.num_buckets())), k),
            |k: Seq<char>|
                bucket_get_spec(self.bucket_view(spec_bucket(k, self.num_buckets())), k)->0,
        )
    }
}

impl DiskHashTable {
    /// Creates a table with the given number of empty buckets.
    pub fn new(num_buckets: usize) -> (r: Self)
        requires
            num_buckets > 0,
        ensures
            r.wf(),
            r@ == Map::<Seq<char>, TripView>::empty(),
            r.num_buckets() == num_buckets,
    {
        let mut buckets: Vec<Vec<TripEntry>> = Vec::new();
        let mut i: usize = 0;
        while i < num_buckets
            invariant
                0 <= i <= num_buckets,
                buckets@.len() == i,
                forall|j: int| 0 <= j < i ==> (#[trigger] buckets@[j])@.len() == 0,
            decreases num_buckets - i,
        {
            buckets.push(Vec::new());
            i = i + 1;
        }
        let r = DiskHashTable { buckets };
        proof {
            assert(forall|b: int|
                0 <= b < r.num_buckets() ==> #[trigger] r.bucket_view(b).len() == 0);
            assert(r@ =~= Map::<Seq<char>, TripView>::empty()) by {
                assert forall|k: Seq<char>| !(#[trigger] r@.contains_key(k)) by {
                    let b = spec_bucket(k, r.num_buckets());
                    assert(r.bucket_view(b).len() == 0);
                }
            }
        }
        r
    }

    /// Stores a record under a key, replacing any record stored there
    /// before.  Only the key's own bucket is touched.
    pub fn insert(&mut self, key: String, trip: Trip)
        requires
            old(self).wf(),
        ensures
            final(self).wf(),
            final(self)@ == old(self)@.insert(key@, trip@),
            final(self).num_buckets() == old(self).num_buckets(),
    {
        let ghost kv = key@;
        let ghost tv = trip@;
        let ghost nb = self.num_buckets();
        let ghost m0 = self@;
        let n = self.buckets.len();
        let b = get_bucket_index(key.as_str(), n);
        let ghost es = self.bucket_view(b as int);
        let mut bucket: Vec<TripEntry> = Vec::new();
        self.buckets.set_and_swap(b, &mut bucket);
        bucket_insert(&mut bucket, key, trip);
        self.buckets.set_and_swap(b, &mut bucket);
        proof {
            lemma_key_index(es, kv);
            let ki = key_index(es, kv);
            let es2 = bucket_insert_spec(es, kv, tv);
            assert(self.bucket_view(b as int) == es2);
            assert(forall|c: int|
                0 <= c < nb && c != b ==> #[trigger] self.bucket_view(c) == old(self).bucket_view(
                    c,
                ));
            // the changed bucket stays well formed
            assert(unique_keys(es2) && forall|i: int|
                0 <= i < es2.len() ==> (#[trigger] es2[i]).key == (if i == es.len() || i == ki {
                    kv
                } else {
                    es[i].key
                })) by {
                if ki < es.len() {
                    assert(es[ki].key == kv);
                }
            }
            assert(final(self).wf());
            // the logical content gains exactly this key
            assert(self@ =~= m0.insert(kv, tv)) by {
                assert forall|k: Seq<char>|
                    #![trigger self@.contains_key(k)]
                    true implies {
                    &&& self@.contains_key(k) == m0.insert(kv, tv).contains_key(k)
                    &&& (self@.contains_key(k) ==> self@[k] == m0.insert(kv, tv)[k])
                } by {
                    let hb = spec_bucket(k, nb);
                    if k == kv {
                        if ki < es.len() {
                            lemma_key_index_is(es2, kv, ki);
                        } else {
                            lemma_key_index_is(es2, kv, es.len() as int);
                        }
                        assert(bucket_get_spec(es2, kv) == Option::Some(tv));
                    } else if hb == b {
                        lemma_key_index(es, k);
                        let kk = key_index(es, k);
                        if kk < es.len() {
                            assert(es[kk].key == k);
                            assert(kk != ki);
                            assert(es2[kk] == es[kk]);
                            lemma_key_index_is(es2, k, kk);
                        } else {
                            lemma_key_index_is(es2, k, es2.len() as int);
                        }
                    } else {
                        assert(self.bucket_view(hb) == old(self).bucket_view(hb));
                    }
                }
            }
        }
    }

    /// Returns the record stored under a key, if any; absence is a normal
    /// result.  Only the key's own bucket is read.
    pub fn get(&self, key: &str) -> (r: Option<Trip>)
        requires
            self.wf(),
        ensures
            r is Some <==> self@.contains_key(key@),
            r is Some ==> r->0@ == self@[key@],
    {
        let n = self.buckets.len();
        let b = get_bucket_index(key, n);
        bucket_get(&self.buckets[b], key)
    }

    /// Removes the record stored under a key and reports whether one was
    /// there.  Only the key's own bucket is touched.
    pub fn remove(&mut self, key: &str) -> (removed: bool)
        requires
            old(self).wf(),
        ensures
            final(self).wf(),
            final(self)@ == old(self)@.remove(key@),
            removed == old(self)@.contains_key(key@),
            final(self).num_buckets() == old(self).num_buckets(),
    {
        let ghost kv = key@;
        let ghost nb = self.num_buckets();
        let ghost m0 = self@;
        let n = self.buckets.len();
        let b = get_bucket_index(key, n);
        let ghost es = self.bucket_view(b as int);
        let mut bucket: Vec<TripEntry> = Vec::new();
        self.buckets.set_and_swap(b, &mut bucket);
        let removed = bucket_remove(&mut bucket, key);
        self.buckets.set_and_swap(b, &mut bucket);
        proof {
            lemma_key_index(es, kv);
            let ki = key_index(es, kv);
            let es2 = bucket_remove_spec(es, kv);
            assert(self.bucket_view(b as int) == es2);
            assert(forall|c: int|
                0 <= c < nb && c != b ==> #[trigger] self.bucket_view(c) == old(self).bucket_view(
                    c,
                ));
            if ki < es.len() {
                assert(forall|i: int| 0 <= i < ki ==> es2[i] == es[i]);
                assert(forall|i: int| ki <= i < es2.len() ==> es2[i] == es[i + 1]);
            }
            assert(final(self).wf());
            assert(self@ =~= m0.remove(kv)) by {
                assert forall|k: Seq<char>|
                    #![trigger self@.contains_key(k)]
                    true implies {
                    &&& self@.contains_key(k) == m0.remove(kv).contains_key(k)
                    &&& (self@.contains_key(k) ==> self@[k] == m0.remove(kv)[k])
                } by {
                    let hb = spec_bucket(k, nb);
                    if k == kv {
                        if ki < es.len() {
                            // uniqueness: no second entry bears the key
                            assert(forall|i: int|
                                0 <= i < es2.len() ==> (#[trigger] es2[i]).key != kv);
                            lemma_key_index_is(es2, kv, es2.len() as int);
                        }
                    } else if hb == b {
                        lemma_key_index(es, k);
                        let kk = key_index(es, k);
                        if ki < es.len() {
                            if kk < es.len() {
                                if kk < ki {
                                    lemma_key_index_is(es2, k, kk);
                                } else {
                                    assert(kk != ki);
                                    assert(es2[kk - 1] == es[kk]);
                                    assert(forall|t: int|
                                        0 <= t < kk - 1 ==> (#[trigger] es2[t]).key != k);
                                    lemma_key_index_is(es2, k, kk - 1);
                                }
                            } else {
                                assert(forall|t: int|
                                    0 <= t < es2.len() ==> (#[trigger] es2[t]).key != k);
                                lemma_key_index_is(es2, k, es2.len() as int);
                            }
                        }
                    } else {
                        assert(self.bucket_view(hb) == old(self).bucket_view(hb));
                    }
                }
            }
        }
        removed
    }
}

/// The logical content of an index built from a dataset: each record
/// stored under its key, a later record replacing an earlier one with the
/// same key.
pub open spec fn table_of(ds: Seq<TripView>) -> Map<Seq<char>, TripView>
    decreases ds.len(),
{
    if ds.len() == 0 {
        Map::empty()
    } else {
        table_of(ds.drop_last()).insert(ds.last().index, ds.last())
    }
}

/// The one-time build pass: creates a table and inserts every record of
/// the dataset under its key, returning the table and the number of
/// records processed.
pub fn build_hash_table_from_csv(trips: &Vec<Trip>, num_buckets: usize) -> (r: (
    DiskHashTable,
    usize,
))
    requires
        num_buckets > 0,
    ensures
        r.0.wf(),
        r.0@ == table_of(trips.deep_view()),
        r.0.num_buckets() == num_buckets,
        r.1 == trips@.len(),
{
    let ghost dsv = trips.deep_view();
    let mut table = DiskHashTable::new(num_buckets);
    proof {
        assert(dsv.take(0) =~= Seq::<TripView>::empty());
    }
    let n = trips.len();
    let mut i: usize = 0;
    while i < n
        invariant
            0 <= i <= n,
            n == trips@.len(),
            dsv == trips.deep_view(),
            table.wf(),
            table.num_buckets() == num_buckets,
            table@ == table_of(dsv.take(i as int)),
        decreases n - i,
    {
        let t = &trips[i];
        table.insert(t.index.clone(), t.clone());
        proof {
            assert(dsv[i as int] == trips@[i as int]@);
            assert(dsv.take(i as int + 1).drop_last() =~= dsv.take(i as int));
            assert(dsv.take(i as int + 1).last() == dsv[i as int]);
        }
        i = i + 1;
    }
    proof {
        assert(dsv.take(n as int) =~= dsv);
    }
    (table, n)
}

/// Round trip through the index: storing a record under a key makes the
/// key read back as exactly that record, and removing the key afterwards
/// makes it read back as absent.  With `m` empty this is the law for a
/// freshly created index.
pub proof fn lemma_index_round_trip(m: Map<Seq<char>, TripView>, k: Seq<char>, t: TripView)
    ensures
        m.insert(k, t).contains_key(k),
        m.insert(k, t)[k] == t,
        !m.insert(k, t).remove(k).contains_key(k),
{
}

/// Looks a key up in a bucket.
pub fn bucket_get(entries: &Vec<TripEntry>, key: &str) -> (r: Option<Trip>)
    ensures
        r is Some <==> bucket_has(entries.deep_view(), key@),
        r is Some ==> r->0@ == bucket_get_spec(entries.deep_view(), key@)->0,
{
    let ghost es = entries.deep_view();
    let n = entries.len();
    let mut i: usize = 0;
    while i < n
        invariant
            0 <= i <= n,
            n == entries@.len(),
            es == entries.deep_view(),
            forall|j: int| 0 <= j < i ==> es[j].key != key@,
        decreases n - i,
    {
        if str_eq(entries[i].key.as_str(), key) {
            proof {
                assert(es[i as int].key == key@);
                lemma_key_index_is(es, key@, i as int);
            }
            return Some(entries[i].trip.clone());
        }
        proof {
            assert(es[i as int].key != key@);
        }
        i = i + 1;
    }
    proof {
        lemma_key_index_is(es, key@, es.len() as int);
    }
    None
}

/// Stores a record under a key in a bucket, replacing in place or
/// appending.
pub fn bucket_insert(entries: &mut Vec<TripEntry>, key: String, trip: Trip)
    ensures
        final(entries).deep_view() == bucket_insert_spec(old(entries).deep_view(), key@, trip@),
{
    let ghost es = entries.deep_view();
    let n = entries.len();
    let mut i: usize = 0;
    while i < n
        invariant
            0 <= i <= n,
            n == entries@.len(),
            es == entries.deep_view(),
            es == old(entries).deep_view(),
            forall|j: int| 0 <= j < i ==> es[j].key != key@,
        decreases n - i,
    {
        if str_eq(entries[i].key.as_str(), key.as_str()) {
            proof {
                assert(es[i as int].key == key@);
                lemma_key_index_is(es, key@, i as int);
            }
            entries.set(i, TripEntry { key, trip });
            proof {
                assert(entries.deep_view() =~= es.update(
                    i as int,
                    TripEntryView { key: key@, trip: trip@ },
                ));
            }
            return ;
        }
        proof {
            assert(es[i as int].key != key@);
        }
        i = i + 1;
    }
    proof {
        lemma_key_index_is(es, key@, es.len() as int);
    }
    entries.push(TripEntry { key, trip });
    proof {
        assert(entries.deep_view() =~= es.push(TripEntryView { key: key@, trip: trip@ }));
    }
}

/// Removes the entry bearing a key from a bucket; reports whether one was
/// there.
pub fn bucket_remove(entries: &mut Vec<TripEntry>, key: &str) -> (removed: bool)
    ensures
        final(entries).deep_view() == bucket_remove_spec(old(entries).deep_view(), key@),
        removed == bucket_has(old(entries).deep_view(), key@),
{
    let ghost es = entries.deep_view();
    let n = entries.len();
    let mut i: usize = 0;
    while i < n
        invariant
            0 <= i <= n,
            n == entries@.len(),
            es == entries.deep_view(),
            es == old(entries).deep_view(),
            forall|j: int| 0 <= j < i ==> es[j].key != key@,
        decreases n - i,
    {
        if str_eq(entries[i].key.as_str(), key) {
            proof {
                assert(es[i as int].key == key@);
                lemma_key_index_is(es, key@, i as int);
            }
            entries.remove(i);
            proof {
                assert(entries.deep_view() =~= es.remove(i as int));
            }
            return true;
        }
        proof {
            assert(es[i as int].key != key@);
        }
        i = i + 1;
    }
    proof {
        lemma_key_index_is(es, key@, es.len() as int);
    }
    false
}

} // verus!
