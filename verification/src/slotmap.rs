//! The primary key to slot map.
//!
//! Open addressing with linear probing, per shard, in front of a dense list of
//! records in insertion order. The bucket array answers lookups; scans walk the
//! list, which has no gaps to test for.
//!
//! Nothing is ever removed in normal operation: a delete installs a tombstone
//! version rather than dropping a slot. [`SlotMap::compact`] is the exception.

use vstd::prelude::*;

use crate::hash::{absorbed_bytes, hash_one, mixed};
use crate::order::same_bytes;
use crate::schema::IndexKey;
use crate::slot::{pruned, Slot, SlotView};
use crate::time::Timestamp;

verus! {

/// Independent shards.
pub const SHARDS: usize = 64;

/// Buckets per shard at construction. Grows by doubling.
pub const INITIAL_CAPACITY: usize = 16;

/// The hash of an encoded key, with 0 kept free to mark an empty bucket.
pub open spec fn key_hash(key: Seq<u8>) -> u64 {
    let h = absorbed_bytes(mixed(0, key.len() as u64), key);
    if h == 0 {
        1
    } else {
        h
    }
}

/// The shard a key belongs to. The low bits of its hash pick the bucket, so the
/// shard comes from the high ones.
pub open spec fn home(key: Seq<u8>) -> int {
    ((key_hash(key) >> 32) % (SHARDS as u64)) as int
}

/// A slot and the primary key it belongs to.
pub struct Record<T> {
    pub key: IndexKey,
    pub slot: Slot<T>,
}

/// One bucket. Empty when `hash` is zero.
#[derive(Clone, Copy)]
pub struct Bucket {
    pub hash: u64,
    pub record: usize,
}

impl Bucket {
    pub open spec fn used(self) -> bool {
        self.hash != 0
    }
}

/// The bucket looked at after `d` steps, in an array of `capacity`.
pub open spec fn step(hash: u64, d: int, capacity: int) -> int {
    (hash as int + d) % capacity
}

/// Probing for `hash` meets record `i` after `d` steps, with no empty bucket in
/// between.
pub open spec fn lands(buckets: Seq<Bucket>, hash: u64, i: int, d: int) -> bool {
    &&& 0 <= d < buckets.len()
    &&& buckets[step(hash, d, buckets.len() as int)].used()
    &&& buckets[step(hash, d, buckets.len() as int)].record == i
    &&& forall|e: int|
        0 <= e < d ==> buckets[#[trigger] step(hash, e, buckets.len() as int)].used()
}

/// Probing for `hash` meets record `i`.
pub open spec fn found(buckets: Seq<Bucket>, hash: u64, i: int) -> bool {
    exists|d: int| lands(buckets, hash, i, d)
}

/// Every bucket in use names a record by its key's hash, no two name the same
/// one, and probing finds each.
pub open spec fn index_ok(buckets: Seq<Bucket>, keys: Seq<Seq<u8>>) -> bool {
    &&& buckets.len() >= INITIAL_CAPACITY
    &&& keys.len() * 2 <= buckets.len()
    &&& forall|b: int|
        0 <= b < buckets.len() && (#[trigger] buckets[b]).used() ==> buckets[b].record < keys.len()
            && buckets[b].hash == key_hash(keys[buckets[b].record as int])
    &&& forall|a: int, b: int|
        0 <= a < b < buckets.len() && (#[trigger] buckets[a]).used() && (
        #[trigger] buckets[b]).used() ==> buckets[a].record != buckets[b].record
    &&& forall|i: int|
        0 <= i < keys.len() ==> found(buckets, key_hash(#[trigger] keys[i]), i)
}

proof fn lemma_next_step(hash: u64, d: int, capacity: int)
    requires
        0 <= d,
        0 < capacity,
    ensures
        0 <= step(hash, d, capacity) < capacity,
        step(hash, d + 1, capacity) == if step(hash, d, capacity) + 1 == capacity {
            0
        } else {
            step(hash, d, capacity) + 1
        },
{
    let x = hash as int + d;
    let q = x / capacity;
    let r = x % capacity;
    assert(x == q * capacity + r && 0 <= r < capacity) by (nonlinear_arith)
        requires
            capacity > 0,
            q == x / capacity,
            r == x % capacity,
    ;
    if r + 1 == capacity {
        assert((x + 1) % capacity == 0) by (nonlinear_arith)
            requires
                x + 1 == q * capacity + capacity,
                capacity > 0,
        ;
    } else {
        assert((x + 1) % capacity == r + 1) by (nonlinear_arith)
            requires
                x + 1 == q * capacity + (r + 1),
                0 <= r + 1 < capacity,
        ;
    }
}

/// Probing reaches every bucket.
proof fn lemma_step_reaches(hash: u64, b: int, capacity: int) -> (d: int)
    requires
        0 <= b < capacity,
    ensures
        0 <= d < capacity,
        step(hash, d, capacity) == b,
{
    let h = hash as int;
    let d = (b - h) % capacity;
    assert(0 <= d < capacity && (h + d) % capacity == b) by {
        vstd::arithmetic::div_mod::lemma_fundamental_div_mod(b - h, capacity);
        vstd::arithmetic::div_mod::lemma_mod_bound(b - h, capacity);
        let q = (b - h) / capacity;
        assert(h + d == b + (-q) * capacity) by (nonlinear_arith)
            requires
                b - h == capacity * q + d,
        ;
        vstd::arithmetic::div_mod::lemma_mod_multiples_vanish(-q, b, capacity);
        vstd::arithmetic::div_mod::lemma_small_mod(b as nat, capacity as nat);
        assert((-q) * capacity + b == capacity * (-q) + b) by (nonlinear_arith);
    }
    d
}

/// An array with more buckets than records has an empty one.
proof fn lemma_some_bucket_is_empty(buckets: Seq<Bucket>, keys: Seq<Seq<u8>>)
    requires
        index_ok(buckets, keys),
    ensures
        exists|b: int| 0 <= b < buckets.len() && !(#[trigger] buckets[b]).used(),
{
    if forall|b: int| 0 <= b < buckets.len() ==> (#[trigger] buckets[b]).used() {
        let names = Seq::new(buckets.len(), |b: int| buckets[b].record as int);
        assert(names.no_duplicates()) by {
            assert forall|a: int, b: int|
                0 <= a < names.len() && 0 <= b < names.len() && a != b implies names[a]
                != names[b] by {
                if a < b {
                    assert(buckets[a].used() && buckets[b].used());
                } else {
                    assert(buckets[b].used() && buckets[a].used());
                }
            }
        }
        names.unique_seq_to_set();
        let all = vstd::set_lib::set_int_range(0, keys.len() as int);
        vstd::set_lib::lemma_int_range(0, keys.len() as int);
        assert(names.to_set().subset_of(all)) by {
            assert forall|x: int| names.to_set().contains(x) implies all.contains(x) by {
                let b = choose|b: int| 0 <= b < names.len() && names[b] == x;
                assert(buckets[b].used());
            }
        }
        vstd::set_lib::lemma_len_subset(names.to_set(), all);
        assert(false);
    }
}

/// The keys of a list of records.
pub open spec fn keys_of<T>(records: Seq<Record<T>>) -> Seq<Seq<u8>> {
    records.map_values(|r: Record<T>| r.key@)
}

/// Bucket arrays.
fn empty_buckets(records: usize) -> (buckets: Vec<Bucket>)
    ensures
        buckets@.len() >= INITIAL_CAPACITY,
        records * 2 <= buckets@.len(),
        forall|b: int| 0 <= b < buckets@.len() ==> !(#[trigger] buckets@[b]).used(),
{
    let mut buckets: Vec<Bucket> = Vec::new();
    while buckets.len() < INITIAL_CAPACITY
        invariant
            buckets@.len() <= INITIAL_CAPACITY,
            forall|b: int| 0 <= b < buckets@.len() ==> !(#[trigger] buckets@[b]).used(),
        decreases INITIAL_CAPACITY - buckets@.len(),
    {
        buckets.push(Bucket { hash: 0, record: 0 });
    }
    while buckets.len() / 2 < records
        invariant
            buckets@.len() >= INITIAL_CAPACITY,
            forall|b: int| 0 <= b < buckets@.len() ==> !(#[trigger] buckets@[b]).used(),
        decreases
            if 2 * records > buckets@.len() {
                2 * records - buckets@.len()
            } else {
                0
            },
    {
        let capacity: usize = buckets.len();
        let mut added: usize = 0;
        while added < capacity
            invariant
                added <= capacity,
                buckets@.len() == capacity + added,
                forall|b: int| 0 <= b < buckets@.len() ==> !(#[trigger] buckets@[b]).used(),
            decreases capacity - added,
        {
            buckets.push(Bucket { hash: 0, record: 0 });
            added = added + 1;
        }
    }
    buckets
}

/// Install the record after those in `keys` in the first empty bucket on its
/// probe path.
fn place(
    buckets: &mut Vec<Bucket>,
    hash: u64,
    record: usize,
    Ghost(keys): Ghost<Seq<Seq<u8>>>,
    Ghost(key): Ghost<Seq<u8>>,
)
    requires
        index_ok(old(buckets)@, keys),
        (keys.len() + 1) * 2 <= old(buckets)@.len(),
        record == keys.len(),
        hash == key_hash(key),
    ensures
        index_ok(final(buckets)@, keys.push(key)),
        final(buckets)@.len() == old(buckets)@.len(),
{
    let ghost before = buckets@;
    let capacity: usize = buckets.len();
    let mut i: usize = (hash % (capacity as u64)) as usize;
    let mut d: usize = 0;
    proof {
        lemma_some_bucket_is_empty(before, keys);
    }
    while d < capacity
        invariant
            capacity == buckets@.len(),
            capacity >= INITIAL_CAPACITY,
            buckets@ == before,
            before == old(buckets)@,
            d <= capacity,
            i < capacity,
            i == step(hash, d as int, capacity as int),
            forall|e: int|
                0 <= e < d ==> before[#[trigger] step(hash, e, capacity as int)].used(),
            index_ok(before, keys),
            (keys.len() + 1) * 2 <= before.len(),
            record == keys.len(),
            hash == key_hash(key),
            exists|b: int| 0 <= b < before.len() && !(#[trigger] before[b]).used(),
        decreases capacity - d,
    {
        if buckets[i].hash == 0 {
            buckets[i] = Bucket { hash, record };
            proof {
                lemma_placed(before, buckets@, keys, key, i as int, d as int);
            }
            return ;
        }
        proof {
            lemma_next_step(hash, d as int, capacity as int);
        }
        i = if i + 1 == capacity {
            0
        } else {
            i + 1
        };
        d = d + 1;
    }
    proof {
        let b = choose|b: int| 0 <= b < before.len() && !(#[trigger] before[b]).used();
        let e = lemma_step_reaches(hash, b, capacity as int);
        assert(before[step(hash, e, capacity as int)].used());
    }
}

proof fn lemma_placed(
    before: Seq<Bucket>,
    after: Seq<Bucket>,
    keys: Seq<Seq<u8>>,
    key: Seq<u8>,
    at: int,
    d: int,
)
    requires
        index_ok(before, keys),
        (keys.len() + 1) * 2 <= before.len(),
        0 <= d < before.len(),
        0 <= at < before.len(),
        at == step(key_hash(key), d, before.len() as int),
        !before[at].used(),
        forall|e: int|
            0 <= e < d ==> before[#[trigger] step(key_hash(key), e, before.len() as int)].used(),
        keys.len() <= usize::MAX,
        after == before.update(
            at,
            Bucket { hash: key_hash(key), record: keys.len() as usize },
        ),
    ensures
        index_ok(after, keys.push(key)),
{
    let n = before.len() as int;
    let all = keys.push(key);
    assert forall|b: int| 0 <= b < n && (#[trigger] after[b]).used() implies after[b].record
        < all.len() && after[b].hash == key_hash(all[after[b].record as int]) by {
        if b != at {
            assert(after[b] == before[b]);
            assert(before[b].used());
            assert(all[before[b].record as int] == keys[before[b].record as int]);
        }
    }
    assert forall|a: int, b: int|
        0 <= a < b < n && (#[trigger] after[a]).used() && (
        #[trigger] after[b]).used() implies after[a].record != after[b].record by {
        if a != at {
            assert(before[a].used());
        }
        if b != at {
            assert(before[b].used());
        }
    }
    assert forall|i: int| 0 <= i < all.len() implies found(
        after,
        key_hash(#[trigger] all[i]),
        i,
    ) by {
        if i == keys.len() {
            assert forall|e: int| 0 <= e < d implies after[#[trigger] step(
                key_hash(key),
                e,
                n,
            )].used() by {
                lemma_next_step(key_hash(key), e, n);
                assert(before[step(key_hash(key), e, n)].used());
            }
            assert(lands(after, key_hash(all[i]), i, d));
        } else {
            assert(all[i] == keys[i]);
            let h = key_hash(keys[i]);
            let f = choose|f: int| lands(before, h, i, f);
            assert(lands(before, h, i, f));
            lemma_next_step(h, f, n);
            assert forall|e: int| 0 <= e < f implies after[#[trigger] step(h, e, n)].used() by {
                lemma_next_step(h, e, n);
                assert(before[step(h, e, n)].used());
            }
            assert(lands(after, h, i, f));
        }
    }
}

/// One shard: an index over a list of records.
pub struct Shard<T> {
    pub buckets: Vec<Bucket>,
    /// In insertion order.
    pub records: Vec<Record<T>>,
}

impl<T> Shard<T> {
    /// Shard number `s` of a map.
    pub open spec fn wf(&self, s: int) -> bool {
        &&& index_ok(self.buckets@, keys_of(self.records@))
        &&& forall|i: int|
            0 <= i < self.records@.len() ==> home((#[trigger] self.records@[i]).key@) == s
                && self.records@[i].slot.wf()
        &&& forall|i: int, j: int|
            0 <= i < j < self.records@.len() ==> (#[trigger] self.records@[i]).key@ != (
            #[trigger] self.records@[j]).key@
    }

    pub open spec fn has(&self, key: Seq<u8>) -> bool {
        exists|i: int| 0 <= i < self.records@.len() && (#[trigger] self.records@[i]).key@ == key
    }

    pub open spec fn slot_of(&self, key: Seq<u8>) -> SlotView<T> {
        if self.has(key) {
            let i = choose|i: int|
                0 <= i < self.records@.len() && (#[trigger] self.records@[i]).key@ == key;
            self.records@[i].slot@
        } else {
            SlotView::empty()
        }
    }

    pub proof fn lemma_slot_of(&self, s: int, i: int)
        requires
            self.wf(s),
            0 <= i < self.records@.len(),
        ensures
            self.has(self.records@[i].key@),
            self.slot_of(self.records@[i].key@) == self.records@[i].slot@,
    {
        let key = self.records@[i].key@;
        let j = choose|j: int|
            0 <= j < self.records@.len() && (#[trigger] self.records@[j]).key@ == key;
        if i < j {
            assert(self.records@[i].key@ != self.records@[j].key@);
        } else if j < i {
            assert(self.records@[j].key@ != self.records@[i].key@);
        }
    }

    fn new(Ghost(s): Ghost<int>) -> (shard: Self)
        ensures
            shard.wf(s),
            shard.records@.len() == 0,
    {
        Shard { buckets: empty_buckets(0), records: Vec::new() }
    }

    /// Find `key`'s record.
    fn probe(&self, hash: u64, key: &IndexKey, Ghost(s): Ghost<int>) -> (r: Option<usize>)
        requires
            self.wf(s),
            hash == key_hash(key@),
        ensures
            match r {
                Some(i) => i < self.records@.len() && self.records@[i as int].key@ == key@,
                None => !self.has(key@),
            },
    {
        let ghost keys = keys_of(self.records@);
        let capacity: usize = self.buckets.len();
        let mut i: usize = (hash % (capacity as u64)) as usize;
        let mut d: usize = 0;
        while d < capacity
            invariant
                self.wf(s),
                hash == key_hash(key@),
                keys == keys_of(self.records@),
                capacity == self.buckets@.len(),
                d <= capacity,
                i < capacity,
                i == step(hash, d as int, capacity as int),
                forall|e: int|
                    0 <= e < d ==> self.buckets@[#[trigger] step(hash, e, capacity as int)].used()
                        && keys[self.buckets@[step(hash, e, capacity as int)].record as int]
                        != key@,
            decreases capacity - d,
        {
            let bucket: Bucket = self.buckets[i];
            if bucket.hash == 0 {
                proof {
                    self.lemma_absent(s, key@, d as int);
                }
                return None;
            }
            assert(self.buckets@[i as int].used());
            assert(keys[bucket.record as int] == self.records@[bucket.record as int].key@);
            if bucket.hash == hash && same_bytes(
                self.records[bucket.record].key.as_bytes(),
                key.as_bytes(),
            ) {
                return Some(bucket.record);
            }
            proof {
                lemma_next_step(hash, d as int, capacity as int);
            }
            i = if i + 1 == capacity {
                0
            } else {
                i + 1
            };
            d = d + 1;
        }
        proof {
            self.lemma_absent(s, key@, d as int);
        }
        None
    }

    /// A probe that met an empty bucket, or every bucket, without the key means
    /// that the key is not there.
    proof fn lemma_absent(&self, s: int, key: Seq<u8>, d: int)
        requires
            self.wf(s),
            0 <= d <= self.buckets@.len(),
            d < self.buckets@.len() ==> !self.buckets@[step(
                key_hash(key),
                d,
                self.buckets@.len() as int,
            )].used(),
            forall|e: int|
                0 <= e < d ==> keys_of(self.records@)[self.buckets@[#[trigger] step(
                    key_hash(key),
                    e,
                    self.buckets@.len() as int,
                )].record as int] != key,
        ensures
            !self.has(key),
    {
        if self.has(key) {
            let i = choose|i: int|
                0 <= i < self.records@.len() && (#[trigger] self.records@[i]).key@ == key;
            let keys = keys_of(self.records@);
            assert(keys[i] == key);
            let f = choose|f: int| lands(self.buckets@, key_hash(keys[i]), i, f);
            assert(lands(self.buckets@, key_hash(key), i, f));
            if f < d {
                assert(keys[self.buckets@[step(
                    key_hash(key),
                    f,
                    self.buckets@.len() as int,
                )].record as int] != key);
            } else {
                assert(self.buckets@[step(key_hash(key), d, self.buckets@.len() as int)].used());
            }
        }
    }

    /// Add a record with an empty slot for `key`.
    fn append(&mut self, hash: u64, key: &IndexKey, Ghost(s): Ghost<int>) -> (at: usize)
        requires
            old(self).wf(s),
            hash == key_hash(key@),
            home(key@) == s,
            !old(self).has(key@),
        ensures
            final(self).wf(s),
            at == old(self).records@.len(),
            final(self).records@.len() == at + 1,
            final(self).records@[at as int].key@ == key@,
            final(self).records@[at as int].slot@ == SlotView::<T>::empty(),
            forall|i: int| 0 <= i < at ==> final(self).records@[i] == old(self).records@[i],
    {
        let at: usize = self.records.len();
        let ghost keys = keys_of(self.records@);
        self.records.push(Record { key: key.duplicate(), slot: Slot::new() });
        assert(keys_of(self.records@) =~= keys.push(key@));
        // At most half full, so that a probe always ends on an empty bucket.
        if at >= self.buckets.len() / 2 {
            self.buckets = index_records(&self.records);
        } else {
            place(&mut self.buckets, hash, at, Ghost(keys), Ghost(key@));
        }
        assert forall|i: int, j: int| 0 <= i < j < self.records@.len() implies (
        #[trigger] self.records@[i]).key@ != (#[trigger] self.records@[j]).key@ by {
            assert(self.records@[i] == old(self).records@[i]);
            if j == at {
                assert(self.records@[j].key@ == key@);
            } else {
                assert(self.records@[j] == old(self).records@[j]);
            }
        }
        at
    }

    /// Prune what no snapshot at or above `watermark` can reach from every slot
    /// that nobody is writing.
    fn sweep(&mut self, watermark: Timestamp, Ghost(s): Ghost<int>)
        requires
            old(self).wf(s),
        ensures
            final(self).wf(s),
            final(self).records@.len() == old(self).records@.len(),
            forall|k: Seq<u8>| #[trigger]
                final(self).slot_of(k) == old(self).slot_of(k).swept(watermark.0),
            forall|k: Seq<u8>| #[trigger] final(self).has(k) == old(self).has(k),
    {
        let mut i: usize = 0;
        while i < self.records.len()
            invariant
                i <= self.records@.len(),
                self.records@.len() == old(self).records@.len(),
                self.buckets@ == old(self).buckets@,
                old(self).wf(s),
                forall|j: int|
                    #![trigger self.records@[j]]
                    0 <= j < self.records@.len() ==> self.records@[j].key
                        == old(self).records@[j].key && self.records@[j].slot.wf(),
                forall|j: int|
                    #![trigger self.records@[j]]
                    0 <= j < i ==> self.records@[j].slot@ == old(self).records@[j].slot@.swept(
                        watermark.0,
                    ),
                forall|j: int|
                    #![trigger self.records@[j]]
                    i <= j < self.records@.len() ==> self.records@[j] == old(self).records@[j],
            decreases self.records@.len() - i,
        {
            assert(self.records@[i as int] == old(self).records@[i as int]);
            if self.records[i].slot.lock == 0 && self.records[i].slot.needs_prune(watermark) {
                self.records[i].slot.prune(watermark);
            }
            assert(self.records@[i as int].slot@ =~= old(self).records@[i as int].slot@.swept(
                watermark.0,
            ));
            i = i + 1;
        }
        proof {
            assert(keys_of(self.records@) =~= keys_of(old(self).records@));
            assert(self.wf(s)) by {
                assert forall|a: int, b: int| 0 <= a < b < self.records@.len() implies (
                #[trigger] self.records@[a]).key@ != (#[trigger] self.records@[b]).key@ by {
                    assert(old(self).records@[a].key@ != old(self).records@[b].key@);
                }
                assert forall|a: int| 0 <= a < self.records@.len() implies home(
                    (#[trigger] self.records@[a]).key@,
                ) == s && self.records@[a].slot.wf() by {
                    assert(home(old(self).records@[a].key@) == s);
                }
            }
            assert forall|k: Seq<u8>| #[trigger] self.slot_of(k) == old(self).slot_of(k).swept(
                watermark.0,
            ) by {
                lemma_slot_of_same_keys(*old(self), *self, s, k);
                if old(self).has(k) {
                    let j = choose|j: int|
                        0 <= j < old(self).records@.len() && (
                        #[trigger] old(self).records@[j]).key@ == k;
                    old(self).lemma_slot_of(s, j);
                    assert(self.records@[j].key@ == k);
                } else {
                    lemma_empty_swept::<T>(watermark.0);
                }
            }
            assert forall|k: Seq<u8>| #[trigger] self.has(k) == old(self).has(k) by {
                lemma_slot_of_same_keys(*old(self), *self, s, k);
            }
        }
    }

    /// Free the records whose slots hold no version, and rebuild around what is
    /// left. Returns how many were freed.
    ///
    /// Both structures are rebuilt rather than patched: clearing one bucket
    /// would sever the probe paths that run through it.
    fn compact(&mut self, Ghost(s): Ghost<int>) -> (freed: usize)
        requires
            old(self).wf(s),
        ensures
            final(self).wf(s),
            freed == old(self).records@.len() - final(self).records@.len(),
            forall|k: Seq<u8>| #[trigger]
                final(self).slot_of(k) == old(self).slot_of(k).compacted(),
            forall|i: int|
                0 <= i < final(self).records@.len() ==> (
                #[trigger] final(self).records@[i]).slot@.chain.len() > 0,
    {
        let ghost all = self.records@;
        let n: usize = self.records.len();
        let mut stack: Vec<Record<T>> = Vec::new();
        while self.records.len() > 0
            invariant
                self.records@ == all.take(self.records@.len() as int),
                self.records@.len() <= all.len(),
                stack@.len() == all.len() - self.records@.len(),
                forall|j: int|
                    0 <= j < stack@.len() ==> #[trigger] stack@[j] == all[all.len() - 1 - j],
            decreases self.records@.len(),
        {
            let ghost m = self.records@.len() as int;
            let record = self.records.pop().unwrap();
            assert(record == all[m - 1]);
            stack.push(record);
            assert(self.records@ =~= all.take(m - 1));
        }
        let mut kept: Vec<Record<T>> = Vec::new();
        let mut i: usize = 0;
        let mut freed: usize = 0;
        while i < n
            invariant
                n == all.len(),
                i <= n,
                all == old(self).records@,
                old(self).wf(s),
                stack@.len() == n - i,
                forall|j: int|
                    0 <= j < stack@.len() ==> #[trigger] stack@[j] == all[all.len() - 1 - j],
                freed == i - kept@.len(),
                forall|x: Record<T>|
                    #![trigger kept@.contains(x)]
                    kept@.contains(x) <==> x.slot@.chain.len() > 0 && exists|j: int|
                        0 <= j < i && #[trigger] all[j] == x,
                forall|a: int, b: int|
                    0 <= a < b < kept@.len() ==> (#[trigger] kept@[a]).key@ != (
                    #[trigger] kept@[b]).key@,
            decreases n - i,
        {
            let ghost before = kept@;
            let record = stack.pop().unwrap();
            assert(record == all[i as int]);
            let ghost x0 = record;
            if record.slot.chain.len() == 0 {
                freed = freed + 1;
            } else {
                assert forall|a: int| 0 <= a < kept@.len() implies (#[trigger] kept@[a]).key@
                    != record.key@ by {
                    assert(kept@.contains(kept@[a]));
                    let j = choose|j: int| 0 <= j < i && #[trigger] all[j] == kept@[a];
                    assert(all[j].key@ != all[i as int].key@);
                }
                kept.push(record);
                assert(kept@.last() == x0);
            }
            assert forall|x: Record<T>|
                #![trigger kept@.contains(x)]
                kept@.contains(x) <==> x.slot@.chain.len() > 0 && exists|j: int|
                    0 <= j < i + 1 && #[trigger] all[j] == x by {
                if kept@.contains(x) {
                    let a = choose|a: int| 0 <= a < kept@.len() && kept@[a] == x;
                    if a < before.len() {
                        assert(before[a] == x);
                        assert(before.contains(x));
                    } else {
                        assert(all[i as int] == x);
                    }
                }
                if x.slot@.chain.len() > 0 && exists|j: int|
                    0 <= j < i + 1 && #[trigger] all[j] == x {
                    let j = choose|j: int| 0 <= j < i + 1 && #[trigger] all[j] == x;
                    if j < i {
                        assert(before.contains(x));
                        let a = choose|a: int| 0 <= a < before.len() && before[a] == x;
                        assert(kept@[a] == x);
                    }
                }
            }
            i = i + 1;
        }
        self.buckets = index_records(&kept);
        self.records = kept;
        proof {
            assert forall|a: int| 0 <= a < self.records@.len() implies home(
                (#[trigger] self.records@[a]).key@,
            ) == s && self.records@[a].slot.wf() && self.records@[a].slot@.chain.len() > 0 by {
                assert(self.records@.contains(self.records@[a]));
                let j = choose|j: int|
                    0 <= j < all.len() && #[trigger] all[j] == self.records@[a];
            }
            assert forall|k: Seq<u8>| #[trigger] self.slot_of(k) == old(self).slot_of(
                k,
            ).compacted() by {
                if self.has(k) {
                    let a = choose|a: int|
                        0 <= a < self.records@.len() && (#[trigger] self.records@[a]).key@ == k;
                    assert(self.records@.contains(self.records@[a]));
                    let j = choose|j: int|
                        0 <= j < all.len() && #[trigger] all[j] == self.records@[a];
                    old(self).lemma_slot_of(s, j);
                    self.lemma_slot_of(s, a);
                } else if old(self).has(k) {
                    let j = choose|j: int|
                        0 <= j < all.len() && (#[trigger] all[j]).key@ == k;
                    old(self).lemma_slot_of(s, j);
                    if all[j].slot@.chain.len() > 0 {
                        assert(self.records@.contains(all[j]));
                        let a = choose|a: int|
                            0 <= a < self.records@.len() && self.records@[a] == all[j];
                        assert(self.records@[a].key@ == k);
                    }
                }
            }
        }
        freed
    }
}

proof fn lemma_empty_swept<T>(watermark: u64)
    ensures
        SlotView::<T>::empty().swept(watermark) == SlotView::<T>::empty(),
{
    let chain = SlotView::<T>::empty().chain;
    assert(chain.skip(0) =~= chain);
    assert(pruned(chain, watermark) =~= chain);
}

/// A bucket array over `records`, at most half full.
fn index_records<T>(records: &Vec<Record<T>>) -> (buckets: Vec<Bucket>)
    ensures
        index_ok(buckets@, keys_of(records@)),
{
    let ghost keys = keys_of(records@);
    let mut buckets = empty_buckets(records.len());
    let mut i: usize = 0;
    assert(keys.take(0) =~= Seq::<Seq<u8>>::empty());
    while i < records.len()
        invariant
            i <= records@.len(),
            keys == keys_of(records@),
            records@.len() * 2 <= buckets@.len(),
            index_ok(buckets@, keys.take(i as int)),
        decreases records@.len() - i,
    {
        let hash: u64 = hash_key(&records[i].key);
        assert(keys.take(i as int).push(records@[i as int].key@) =~= keys.take(i + 1));
        place(&mut buckets, hash, i, Ghost(keys.take(i as int)), Ghost(records@[i as int].key@));
        i = i + 1;
    }
    assert(keys.take(i as int) =~= keys);
    buckets
}

/// The key's hash, computed once for both shard selection and probing.
pub fn hash_key(key: &IndexKey) -> (h: u64)
    ensures
        h == key_hash(key@),
{
    let h: u64 = hash_one(key);
    if h == 0 {
        1
    } else {
        h
    }
}

/// A map from primary keys to slots. Every key has a slot; those nobody ever
/// asked for are empty and take no room.
pub struct SlotMap<T> {
    pub shards: Vec<Shard<T>>,
}

impl<T> View for SlotMap<T> {
    type V = Map<Seq<u8>, SlotView<T>>;

    closed spec fn view(&self) -> Map<Seq<u8>, SlotView<T>> {
        Map::total(|k: Seq<u8>| self.shards@[home(k)].slot_of(k))
    }
}

impl<T> SlotMap<T> {
    pub open spec fn wf(&self) -> bool {
        &&& self.shards@.len() == SHARDS
        &&& forall|s: int| 0 <= s < SHARDS ==> (#[trigger] self.shards@[s]).wf(s)
    }

    /// Every key has a slot, and each record holds the one of its key.
    pub proof fn lemma_view(&self)
        requires
            self.wf(),
        ensures
            forall|k: Seq<u8>| #[trigger] self@.contains_key(k),
            forall|k: Seq<u8>| #[trigger] self@[k] == self.shards@[home(k)].slot_of(k),
            forall|s: int, i: int|
                0 <= s < SHARDS && 0 <= i < self.shards@[s].records@.len()
                    ==> self@[(#[trigger] self.shards@[s].records@[i]).key@]
                    == self.shards@[s].records@[i].slot@,
            forall|k: Seq<u8>|
                #![trigger self@[k]]
                self@[k] != SlotView::<T>::empty() ==> self.shards@[home(k)].has(k),
            forall|k: Seq<u8>| 0 <= #[trigger] home(k) < SHARDS,
    {
        assert forall|k: Seq<u8>| 0 <= #[trigger] home(k) < SHARDS by {
            lemma_home(k);
        }
        assert forall|s: int, i: int|
            0 <= s < SHARDS && 0 <= i
                < self.shards@[s].records@.len() implies self@[(#[trigger] self.shards@[s].records@[i]).key@]
            == self.shards@[s].records@[i].slot@ by {
            self.shards@[s].lemma_slot_of(s, i);
        }
    }

    pub fn new() -> (m: Self)
        ensures
            m.wf(),
            m@ == Map::<Seq<u8>, SlotView<T>>::total(|k: Seq<u8>| SlotView::<T>::empty()),
            m.kept() == Set::<Seq<u8>>::empty(),
    {
        let mut shards: Vec<Shard<T>> = Vec::new();
        while shards.len() < SHARDS
            invariant
                shards@.len() <= SHARDS,
                forall|s: int|
                    0 <= s < shards@.len() ==> (#[trigger] shards@[s]).wf(s)
                        && shards@[s].records@.len() == 0,
            decreases SHARDS - shards@.len(),
        {
            let ghost s = shards@.len() as int;
            shards.push(Shard::new(Ghost(s)));
        }
        let m = SlotMap { shards };
        proof {
            m.lemma_view();
            assert forall|k: Seq<u8>| #[trigger] m@[k] == SlotView::<T>::empty() by {
                assert(0 <= home(k) < SHARDS);
            }
            assert(m@ =~= Map::<Seq<u8>, SlotView<T>>::total(|k: Seq<u8>| SlotView::<T>::empty()));
            assert forall|k: Seq<u8>| !#[trigger] m.kept().contains(k) by {
                assert(0 <= home(k) < SHARDS);
            }
            assert(m.kept() =~= Set::<Seq<u8>>::empty());
        }
        m
    }

    /// The shard for a hash.
    fn shard(hash: u64) -> (s: usize)
        ensures
            s < SHARDS,
            s == ((hash >> 32) % (SHARDS as u64)) as int,
    {
        ((hash >> 32) % (SHARDS as u64)) as usize
    }

    /// The slot for `key`, if there is a record of it.
    pub fn get(&self, key: &IndexKey) -> (r: Option<&Slot<T>>)
        requires
            self.wf(),
        ensures
            match r {
                Some(slot) => slot.wf() && slot@ == self@[key@],
                None => self@[key@] == SlotView::<T>::empty(),
            },
            r is Some <==> self.kept().contains(key@),
    {
        proof {
            self.lemma_view();
        }
        let hash: u64 = hash_key(key);
        let s: usize = Self::shard(hash);
        assert(s == home(key@));
        match self.shards[s].probe(hash, key, Ghost(s as int)) {
            Some(i) => {
                proof {
                    self.shards@[s as int].lemma_slot_of(s as int, i as int);
                }
                Some(&self.shards[s].records[i].slot)
            },
            None => None,
        }
    }

    /// The slot for `key`, creating an empty one if absent.
    pub fn get_or_create(&mut self, key: &IndexKey) -> (slot: &mut Slot<T>)
        requires
            old(self).wf(),
        ensures
            slot.wf(),
            slot@ == old(self)@[key@],
            final(slot).wf() ==> final(self).wf(),
            final(self)@ == old(self)@.insert(key@, final(slot)@),
            final(self).kept() == old(self).kept().insert(key@),
    {
        proof {
            self.lemma_view();
        }
        let hash: u64 = hash_key(key);
        let s: usize = Self::shard(hash);
        assert(s == home(key@));
        let at: usize = match self.shards[s].probe(hash, key, Ghost(s as int)) {
            Some(i) => {
                proof {
                    self.shards@[s as int].lemma_slot_of(s as int, i as int);
                }
                i
            },
            None => self.shards[s].append(hash, key, Ghost(s as int)),
        };
        let ghost mid = *self;
        proof {
            assert forall|after: SlotMap<T>|
                #![trigger after.wf()]
                #![trigger after@]
                #![trigger after.kept()]
                same_but(mid, after, s as int, at as int) implies after@ == old(self)@.insert(
                key@,
                after.shards@[s as int].records@[at as int].slot@,
            ) && after.kept() == old(self).kept().insert(key@) && (after.shards@[s as int].records@[at as int].slot.wf() ==> after.wf()) by {
                lemma_same_but(mid, after, s as int, at as int);
                lemma_grown(*old(self), mid, s as int, at as int);
            }
        }
        &mut self.shards[s].records[at].slot
    }

    /// Prune the slots of one shard, chosen by `round`.
    ///
    /// Records are spread over the shards by hash, so sweeping one shard per
    /// round touches about as many records each time and completes a pass in as
    /// many rounds as there are shards.
    pub fn sweep(&mut self, round: usize, watermark: Timestamp)
        requires
            old(self).wf(),
        ensures
            final(self).wf(),
            final(self)@ == Map::<Seq<u8>, SlotView<T>>::total(
                |k: Seq<u8>|
                    if home(k) == round % SHARDS {
                        old(self)@[k].swept(watermark.0)
                    } else {
                        old(self)@[k]
                    },
            ),
            final(self).kept() == old(self).kept(),
    {
        let s: usize = round % SHARDS;
        self.shards[s].sweep(watermark, Ghost(s as int));
        proof {
            old(self).lemma_view();
            self.lemma_view();
            assert forall|k: Seq<u8>| #[trigger] self@[k] == if home(k) == s {
                old(self)@[k].swept(watermark.0)
            } else {
                old(self)@[k]
            } by {
                assert(0 <= home(k) < SHARDS);
            }
            assert(self@ =~= Map::<Seq<u8>, SlotView<T>>::total(
                |k: Seq<u8>|
                    if home(k) == round % SHARDS {
                        old(self)@[k].swept(watermark.0)
                    } else {
                        old(self)@[k]
                    },
            ));
            assert forall|k: Seq<u8>| #[trigger] self.kept().contains(k) == old(
                self,
            ).kept().contains(k) by {
                assert(0 <= home(k) < SHARDS);
            }
            assert(self.kept() =~= old(self).kept());
        }
    }

    /// Free the records whose slots hold no version, in every shard. Returns how
    /// many were freed.
    ///
    /// An empty slot means that the record was deleted and its tombstone has
    /// been pruned, or that it was read and never written.
    pub fn compact(&mut self) -> (freed: usize)
        requires
            old(self).wf(),
        ensures
            final(self).wf(),
            final(self).kept() == old(self).kept().filter(
                |k: Seq<u8>| old(self)@[k].chain.len() > 0,
            ),
            freed == saturated(old(self).kept().len() - final(self).kept().len()),
            final(self)@ == Map::<Seq<u8>, SlotView<T>>::total(
                |k: Seq<u8>| old(self)@[k].compacted(),
            ),
    {
        let mut freed: usize = 0;
        let mut s: usize = 0;
        proof {
            assert(self.shards@.take(0) =~= Seq::<Shard<T>>::empty());
        }
        while s < SHARDS
            invariant
                s <= SHARDS,
                self.shards@.len() == SHARDS,
                old(self).wf(),
                forall|t: int| 0 <= t < SHARDS ==> (#[trigger] self.shards@[t]).wf(t),
                forall|t: int|
                    s <= t < SHARDS ==> #[trigger] self.shards@[t] == old(self).shards@[t],
                forall|t: int, k: Seq<u8>|
                    0 <= t < s ==> #[trigger] self.shards@[t].slot_of(k) == old(
                        self,
                    ).shards@[t].slot_of(k).compacted(),
                forall|t: int, i: int|
                    0 <= t < s && 0 <= i < self.shards@[t].records@.len() ==> (
                    #[trigger] self.shards@[t].records@[i]).slot@.chain.len() > 0,
                freed == saturated(
                    record_count(old(self).shards@.take(s as int)) - record_count(
                        self.shards@.take(s as int),
                    ),
                ),
                record_count(self.shards@.take(s as int)) <= record_count(
                    old(self).shards@.take(s as int),
                ),
            decreases SHARDS - s,
        {
            let ghost before = self.shards@;
            let n: usize = self.shards[s].compact(Ghost(s as int));
            freed = freed.saturating_add(n);
            proof {
                assert(self.shards@.take(s + 1).drop_last() =~= before.take(s as int));
                assert(old(self).shards@.take(s + 1).drop_last() =~= old(self).shards@.take(
                    s as int,
                ));
            }
            s = s + 1;
        }
        proof {
            old(self).lemma_view();
            self.lemma_view();
            assert(self.shards@.take(SHARDS as int) =~= self.shards@);
            assert(old(self).shards@.take(SHARDS as int) =~= old(self).shards@);
            assert forall|k: Seq<u8>| #[trigger] self@[k] == old(self)@[k].compacted() by {
                assert(0 <= home(k) < SHARDS);
            }
            assert(self@ =~= Map::<Seq<u8>, SlotView<T>>::total(
                |k: Seq<u8>| old(self)@[k].compacted(),
            ));
            old(self).lemma_kept();
            self.lemma_kept();
            let left = old(self).kept().filter(|k: Seq<u8>| old(self)@[k].chain.len() > 0);
            assert forall|k: Seq<u8>| self.kept().contains(k) == left.contains(k) by {
                assert(0 <= home(k) < SHARDS);
                let shard = self.shards@[home(k)];
                if self.kept().contains(k) {
                    let i = choose|i: int|
                        0 <= i < shard.records@.len() && (#[trigger] shard.records@[i]).key@ == k;
                    shard.lemma_slot_of(home(k), i);
                    assert(self@[k].chain.len() > 0);
                    assert(old(self)@[k] != SlotView::<T>::empty());
                }
                if left.contains(k) {
                    assert(self@[k] == old(self)@[k]);
                    assert(self@[k] != SlotView::<T>::empty());
                }
            }
            assert(self.kept() =~= left);
        }
        freed
    }
}

impl<T> SlotMap<T> {
    /// The keys there is a record of, whether or not it holds a version.
    pub closed spec fn kept(&self) -> Set<Seq<u8>> {
        Set::new(|k: Seq<u8>| self.shards@[home(k)].has(k))
    }

    /// Every key with a version has a record, and they are as many as the shards
    /// hold.
    pub proof fn lemma_kept(&self)
        requires
            self.wf(),
        ensures
            self.kept().finite(),
            self.kept().len() == record_count(self.shards@),
            forall|k: Seq<u8>|
                #![trigger self@[k]]
                self@[k] != SlotView::<T>::empty() ==> self.kept().contains(k),
    {
        self.lemma_view();
        self.lemma_kept_below(SHARDS as int);
        assert(self.shards@.take(SHARDS as int) =~= self.shards@);
        assert(self.kept_below(SHARDS as int) =~= self.kept());
    }

    /// The keys in the first `n` shards.
    closed spec fn kept_below(&self, n: int) -> Set<Seq<u8>> {
        Set::new(|k: Seq<u8>| home(k) < n && self.shards@[home(k)].has(k))
    }

    proof fn lemma_kept_below(&self, n: int)
        requires
            self.wf(),
            0 <= n <= SHARDS,
        ensures
            self.kept_below(n).finite(),
            self.kept_below(n).len() == record_count(self.shards@.take(n)),
        decreases n,
    {
        self.lemma_view();
        if n == 0 {
            assert forall|k: Seq<u8>| !self.kept_below(0).contains(k) by {
                assert(0 <= home(k));
            }
            assert(self.kept_below(0) =~= Set::empty());
        } else {
            let s = n - 1;
            self.lemma_kept_below(s);
            let shard = self.shards@[s];
            let keys = keys_of(shard.records@);
            assert(keys.no_duplicates()) by {
                assert forall|i: int, j: int|
                    0 <= i < keys.len() && 0 <= j < keys.len() && i != j implies keys[i]
                    != keys[j] by {
                    if i < j {
                        assert(shard.records@[i].key@ != shard.records@[j].key@);
                    } else {
                        assert(shard.records@[j].key@ != shard.records@[i].key@);
                    }
                }
            }
            keys.unique_seq_to_set();
            let here = keys.to_set();
            assert forall|k: Seq<u8>| here.contains(k) == (home(k) == s && shard.has(k)) by {
                if here.contains(k) {
                    let i = choose|i: int| 0 <= i < keys.len() && keys[i] == k;
                    assert(shard.records@[i].key@ == k);
                }
                if shard.has(k) {
                    let i = choose|i: int|
                        0 <= i < shard.records@.len() && (#[trigger] shard.records@[i]).key@ == k;
                    assert(keys[i] == k);
                }
            }
            assert(self.kept_below(n) =~= self.kept_below(s) + here);
            vstd::set_lib::lemma_set_disjoint_lens(self.kept_below(s), here);
            assert(self.shards@.take(n).drop_last() =~= self.shards@.take(s));
            assert(self.shards@.take(n).last() == shard);
        }
    }
}

/// How many records some shards hold.
pub open spec fn record_count<T>(shards: Seq<Shard<T>>) -> nat
    decreases shards.len(),
{
    if shards.len() == 0 {
        0
    } else {
        record_count(shards.drop_last()) + shards.last().records@.len()
    }
}

/// The number itself, or the largest one a `usize` can hold.
pub open spec fn saturated(n: int) -> int {
    if n <= usize::MAX {
        n
    } else {
        usize::MAX as int
    }
}

/// `after` is `before` but for the slot of record `at` in shard `s`.
spec fn same_but<T>(before: SlotMap<T>, after: SlotMap<T>, s: int, at: int) -> bool {
    let old_shard = before.shards@[s];
    let new_shard = after.shards@[s];
    &&& after.shards@ =~= before.shards@.update(s, new_shard)
    &&& new_shard.buckets@ == old_shard.buckets@
    &&& new_shard.records@ =~= old_shard.records@.update(at, new_shard.records@[at])
    &&& new_shard.records@[at].key@ == old_shard.records@[at].key@
}

proof fn lemma_same_but<T>(before: SlotMap<T>, after: SlotMap<T>, s: int, at: int)
    requires
        before.wf(),
        0 <= s < SHARDS,
        0 <= at < before.shards@[s].records@.len(),
        same_but(before, after, s, at),
    ensures
        after@ == before@.insert(
            before.shards@[s].records@[at].key@,
            after.shards@[s].records@[at].slot@,
        ),
        after.shards@[s].records@[at].slot.wf() ==> after.wf(),
        after.kept() == before.kept(),
{
    before.lemma_view();
    let key = before.shards@[s].records@[at].key@;
    let old_shard = before.shards@[s];
    let new_shard = after.shards@[s];
    assert(keys_of(new_shard.records@) =~= keys_of(old_shard.records@));
    assert(home(key) == s);
    assert forall|k: Seq<u8>| #[trigger] new_shard.slot_of(k) == if k == key {
        new_shard.records@[at].slot@
    } else {
        old_shard.slot_of(k)
    } by {
        lemma_slot_of_same_keys(old_shard, new_shard, s, k);
        if k != key && old_shard.has(k) {
            let i = choose|i: int|
                0 <= i < old_shard.records@.len() && (#[trigger] old_shard.records@[i]).key@ == k;
            assert(new_shard.records@[i] == old_shard.records@[i]);
            old_shard.lemma_slot_of(s, i);
        }
        if k == key {
            assert(old_shard.records@[at].key@ == key);
        }
    }
    assert forall|k: Seq<u8>| #[trigger] after@[k] == before@.insert(
        key,
        new_shard.records@[at].slot@,
    )[k] by {
        assert(0 <= home(k) < SHARDS);
        assert(before@[k] == before.shards@[home(k)].slot_of(k));
    }
    assert(after@ =~= before@.insert(key, new_shard.records@[at].slot@));
    assert forall|k: Seq<u8>| #[trigger] after.kept().contains(k) == before.kept().contains(k) by {
        assert(0 <= home(k) < SHARDS);
        lemma_slot_of_same_keys(old_shard, new_shard, s, k);
    }
    assert(after.kept() =~= before.kept());
    if new_shard.records@[at].slot.wf() {
        assert forall|t: int| 0 <= t < SHARDS implies (#[trigger] after.shards@[t]).wf(t) by {
            assert(before.shards@[t].wf(t));
        }
    }
}

/// Looking a key up in a list of records with the same keys finds the same
/// position.
proof fn lemma_slot_of_same_keys<T>(a: Shard<T>, b: Shard<T>, s: int, k: Seq<u8>)
    requires
        a.wf(s),
        keys_of(a.records@) == keys_of(b.records@),
    ensures
        a.has(k) == b.has(k),
        forall|i: int|
            0 <= i < a.records@.len() && (#[trigger] b.records@[i]).key@ == k ==> b.slot_of(k)
                == b.records@[i].slot@,
{
    let ka = keys_of(a.records@);
    let kb = keys_of(b.records@);
    assert(a.records@.len() == ka.len() == kb.len() == b.records@.len());
    assert forall|i: int| 0 <= i < ka.len() implies a.records@[i].key@ == b.records@[i].key@ by {
        assert(ka[i] == kb[i]);
    }
    if a.has(k) {
        let i = choose|i: int|
            0 <= i < a.records@.len() && (#[trigger] a.records@[i]).key@ == k;
        assert(b.records@[i].key@ == k);
    }
    if b.has(k) {
        let i = choose|i: int|
            0 <= i < b.records@.len() && (#[trigger] b.records@[i]).key@ == k;
        assert(a.records@[i].key@ == k);
    }
    assert forall|i: int|
        0 <= i < a.records@.len() && (#[trigger] b.records@[i]).key@ == k implies b.slot_of(k)
        == b.records@[i].slot@ by {
        let j = choose|j: int|
            0 <= j < b.records@.len() && (#[trigger] b.records@[j]).key@ == k;
        assert(a.records@[i].key@ == k && a.records@[j].key@ == k);
        if i < j {
            assert(a.records@[i].key@ != a.records@[j].key@);
        } else if j < i {
            assert(a.records@[j].key@ != a.records@[i].key@);
        }
    }
}

/// Adding a record with an empty slot, or finding one, leaves the map as it was.
proof fn lemma_grown<T>(before: SlotMap<T>, after: SlotMap<T>, s: int, at: int)
    requires
        before.wf(),
        after.wf(),
        0 <= s < SHARDS,
        0 <= at < after.shards@[s].records@.len(),
        after.shards@ =~= before.shards@.update(s, after.shards@[s]),
        after.shards@[s].records@.len() == before.shards@[s].records@.len() || (
        after.shards@[s].records@.len() == before.shards@[s].records@.len() + 1 && at
            == before.shards@[s].records@.len() && after.shards@[s].records@[at].slot@
            == SlotView::<T>::empty()),
        forall|i: int|
            0 <= i < before.shards@[s].records@.len() ==> after.shards@[s].records@[i]
                == before.shards@[s].records@[i],
    ensures
        after@ == before@,
        after.kept() == before.kept().insert(after.shards@[s].records@[at].key@),
{
    before.lemma_view();
    after.lemma_view();
    let a = before.shards@[s];
    let b = after.shards@[s];
    assert forall|k: Seq<u8>| #[trigger] b.slot_of(k) == a.slot_of(k) by {
        if b.has(k) {
            let i = choose|i: int|
                0 <= i < b.records@.len() && (#[trigger] b.records@[i]).key@ == k;
            b.lemma_slot_of(s, i);
            if i < a.records@.len() {
                assert(a.records@[i] == b.records@[i]);
                a.lemma_slot_of(s, i);
            } else if a.has(k) {
                let j = choose|j: int|
                    0 <= j < a.records@.len() && (#[trigger] a.records@[j]).key@ == k;
                assert(b.records@[j].key@ == k);
                assert(b.records@[j].key@ != b.records@[i].key@);
            }
        } else if a.has(k) {
            let j = choose|j: int|
                0 <= j < a.records@.len() && (#[trigger] a.records@[j]).key@ == k;
            assert(b.records@[j].key@ == k);
        }
    }
    assert forall|k: Seq<u8>| #[trigger] after@[k] == before@[k] by {
        assert(0 <= home(k) < SHARDS);
    }
    assert(after@ =~= before@);
    let key = b.records@[at].key@;
    assert forall|k: Seq<u8>| #[trigger] after.kept().contains(k) == before.kept().insert(
        key,
    ).contains(k) by {
        assert(0 <= home(k) < SHARDS);
        if b.has(k) {
            let i = choose|i: int|
                0 <= i < b.records@.len() && (#[trigger] b.records@[i]).key@ == k;
            if i < a.records@.len() {
                assert(a.records@[i].key@ == k);
            }
        }
        if a.has(k) {
            let j = choose|j: int|
                0 <= j < a.records@.len() && (#[trigger] a.records@[j]).key@ == k;
            assert(b.records@[j].key@ == k);
        }
        if k == key {
            assert(b.records@[at].key@ == k);
        }
    }
    assert(after.kept() =~= before.kept().insert(key));
}

proof fn lemma_home(key: Seq<u8>)
    ensures
        0 <= home(key) < SHARDS,
{
}

/// A key is found by its hash, which is never zero.
pub proof fn law_keys_are_found_by_their_hash(key: IndexKey)
    ensures
        forall|h: u64, found: u64|
            #[trigger] call_ensures(crate::hash::hash_one::<IndexKey>, (&key,), h)
                && #[trigger] call_ensures(hash_key, (&key,), found) ==> found == if h == 0 {
                1
            } else {
                h
            },
{
}

} // verus!
