//! A registered table: the primary map, its secondary indexes, and the locks
//! that are taken on predicates and on unique index keys.

use std::sync::Arc;

use vstd::prelude::*;

use crate::filter::{check_filter, in_range, passes, Bound, Filter};
use crate::order::{lemma_lex_asymmetric, lemma_lex_irreflexive, lex_le, lex_lt, same_bytes};
use crate::ordered::Ordered;
use crate::schema::{IndexDesc, IndexKey, RecordType};
use crate::slot::{
    committed_or_own, current, dead, lemma_dead, lemma_newest_index, lemma_settled, live_value,
    newest_index, read_at, settled, stamped, visible, Slot, SlotView, Version,
};
use crate::slotmap::{home, saturated, SlotMap, SHARDS};
use crate::ssi::{expired, TxnState, TxnTable};
use crate::time::{is_in_flight, tag, Timestamp, TxnId, Visibility, FOREVER, NOBODY};
use crate::versioned::Versioned;

verus! {

/// The state of a table as a mathematical value.
///
/// The entries of its secondary indexes are not part of it: they only say where
/// to look.
#[verifier::ext_equal]
#[verifier::reject_recursive_types(T)]
pub struct TableView<T: Versioned> {
    pub of: RecordType,
    /// Used in error messages.
    pub name: &'static str,
    pub indexes: Seq<IndexDesc>,
    /// The slot of every possible key.
    pub slots: Map<Seq<u8>, SlotView<T>>,
    /// For each index, the keys that running transactions have claimed, and who
    /// has.
    pub claims: Seq<Map<Seq<u8>, u64>>,
    /// The predicates that serializable transactions have evaluated.
    pub locks: Seq<(u64, Arc<Filter<T::Predicate>>)>,
    /// The keys there is a record of, whether or not it holds a version. Every
    /// other key's slot takes no room.
    pub kept: Set<Seq<u8>>,
}

/// Whether a scan for `filter` at `snapshot` by `reader` returns this record.
pub open spec fn hit<T: Versioned>(
    slot: SlotView<T>,
    snapshot: u64,
    reader: u64,
    filter: Filter<T::Predicate>,
) -> bool {
    match live_value(read_at(slot.chain, snapshot, reader)) {
        Some(x) => passes(filter, x),
        None => false,
    }
}

/// What a scan for `filter` at `snapshot` by `reader` finds: the version of each
/// record it returns, by primary key.
pub open spec fn scanned<T: Versioned>(
    slots: Map<Seq<u8>, SlotView<T>>,
    snapshot: u64,
    reader: u64,
    filter: Filter<T::Predicate>,
) -> Map<Seq<u8>, Version<T>> {
    Map::new(
        |k: Seq<u8>| hit(slots[k], snapshot, reader, filter),
        |k: Seq<u8>| read_at(slots[k].chain, snapshot, reader)->Some_0,
    )
}

/// The serializable transaction that wrote what stands in a slot at `now`.
pub open spec fn writer_at<T: Versioned>(slot: SlotView<T>, now: u64) -> Option<TxnId> {
    match read_at(slot.chain, now, NOBODY) {
        Some(v) => v.writer,
        None => None,
    }
}

/// Whether a version that everyone can see began at `ts`, after `since` and by
/// `now`.
pub open spec fn began<T: Versioned>(slot: SlotView<T>, since: u64, now: u64, ts: u64) -> bool {
    since < ts <= now && match read_at(slot.chain, ts, NOBODY) {
        Some(v) => v.begin == ts,
        None => false,
    }
}

/// Whether a version began at `ts`, after `since` and by `now`, and a scan for
/// `filter` returns it or what it replaced.
pub open spec fn touched<T: Versioned>(
    slot: SlotView<T>,
    since: u64,
    now: u64,
    filter: Filter<T::Predicate>,
    ts: u64,
) -> bool {
    began(slot, since, now, ts) && (hit(slot, ts, NOBODY, filter) || hit(
        slot,
        (ts - 1) as u64,
        NOBODY,
        filter,
    ))
}

/// When each of these versions began.
pub open spec fn begins<T>(m: Map<Seq<u8>, Version<T>>) -> Map<Seq<u8>, u64> {
    m.map_values(|v: Version<T>| v.begin)
}

/// When the version in each of these rows began, by primary key.
pub(crate) fn begins_of<T>(
    rows: &Vec<(IndexKey, Version<T>)>,
    Ghost(m): Ghost<Map<Seq<u8>, Version<T>>>,
) -> (out: Ordered<u64>)
    requires
        lists(rows@, m),
    ensures
        out.wf(),
        out@ == begins(m),
{
    let ghost goal = begins(m);
    let mut out: Ordered<u64> = Ordered::new();
    let mut i: usize = 0;
    while i < rows.len()
        invariant
            i <= rows@.len(),
            out.wf(),
            goal == begins(m),
            lists(rows@, m),
            forall|k: Seq<u8>| #[trigger]
                out@.contains_key(k) ==> goal.contains_key(k) && out@[k] == goal[k],
            forall|j: int| 0 <= j < i ==> out@.contains_key((#[trigger] rows@[j]).0@),
        decreases rows@.len() - i,
    {
        let row = &rows[i];
        assert(goal.contains_key(rows@[i as int].0@));
        out.insert(row.0.duplicate(), row.1.begin);
        i = i + 1;
    }
    assert forall|k: Seq<u8>| #[trigger] goal.contains_key(k) implies out@.contains_key(k) by {
        assert(m.contains_key(k));
        let j = choose|j: int| 0 <= j < rows@.len() && (#[trigger] rows@[j]).0@ == k;
        assert(out@.contains_key(rows@[j].0@));
    }
    assert(out@ =~= goal);
    out
}

/// `rows` are the entries of `m`, each once or more.
pub open spec fn lists<V>(rows: Seq<(IndexKey, V)>, m: Map<Seq<u8>, V>) -> bool {
    &&& forall|i: int|
        0 <= i < rows.len() ==> m.contains_key((#[trigger] rows[i]).0@) && m[rows[i].0@]
            == rows[i].1
    &&& forall|k: Seq<u8>| #[trigger]
        m.contains_key(k) ==> exists|i: int| 0 <= i < rows.len() && (#[trigger] rows[i]).0@ == k
}

/// The key of a version's record in an index. Meaningless for a tombstone.
pub open spec fn index_key_of<T: Versioned>(v: Version<T>, position: int) -> Seq<u8> {
    live_value(Some(v))->Some_0.spec_index_key(position)
}

/// Rows in the order of an index, those with equal keys in primary key order.
pub open spec fn in_index_order<T: Versioned>(
    rows: Seq<(IndexKey, Version<T>)>,
    position: int,
) -> bool {
    forall|i: int, j: int|
        0 <= i < j < rows.len() ==> index_before(
            #[trigger] rows[i],
            #[trigger] rows[j],
            position,
        )
}

/// Whether row `a` comes before row `b` in an index.
pub open spec fn index_before<T: Versioned>(
    a: (IndexKey, Version<T>),
    b: (IndexKey, Version<T>),
    position: int,
) -> bool {
    let ka = index_key_of(a.1, position);
    let kb = index_key_of(b.1, position);
    lex_lt(ka, kb) || (ka == kb && lex_lt(a.0@, b.0@))
}

/// The slot after `txn` has put a version in flight on top.
pub open spec fn installed<T>(
    slot: SlotView<T>,
    txn: u64,
    value: Option<Arc<T>>,
    writer: Option<TxnId>,
) -> SlotView<T> {
    SlotView {
        chain: slot.chain.push(Version { begin: tag(txn), end: FOREVER, value, writer }),
        lock: txn,
        readers: slot.readers,
    }
}

impl<T: Versioned> TableView<T> {
    /// The table after a sweep of the shard chosen by `round`.
    pub open spec fn swept(self, round: int, watermark: u64) -> Self {
        TableView {
            slots: Map::total(
                |k: Seq<u8>|
                    if home(k) == round % (SHARDS as int) {
                        self.slots[k].swept(watermark)
                    } else {
                        self.slots[k]
                    },
            ),
            ..self
        }
    }

    /// The table once empty slots have been given back.
    pub open spec fn compacted(self) -> Self {
        TableView {
            slots: Map::total(|k: Seq<u8>| self.slots[k].compacted()),
            kept: self.kept.filter(|k: Seq<u8>| self.slots[k].chain.len() > 0),
            ..self
        }
    }
}

/// Whether some record other than `own_key`'s holds `index_key`, committed at
/// whatever time or written by `reader` itself.
pub open spec fn taken<T: Versioned>(
    slots: Map<Seq<u8>, SlotView<T>>,
    position: int,
    index_key: Seq<u8>,
    own_key: Seq<u8>,
    reader: u64,
) -> bool {
    exists|k: Seq<u8>|
        k != own_key && #[trigger] holds_index_key(slots[k], position, index_key, reader)
}

/// Whether this record holds `index_key`, as `reader` would find it right now.
pub open spec fn holds_index_key<T: Versioned>(
    slot: SlotView<T>,
    position: int,
    index_key: Seq<u8>,
    reader: u64,
) -> bool {
    match live_value(current(slot.chain, reader)) {
        Some(x) => x.spec_index_key(position) == index_key,
        None => false,
    }
}

/// The predicate locks that still matter.
pub open spec fn live_locks<P>(
    locks: Seq<(u64, Arc<Filter<P>>)>,
    states: Map<u64, TxnState>,
    gc_watermark: u64,
) -> Seq<(u64, Arc<Filter<P>>)> {
    locks.filter(|l: (u64, Arc<Filter<P>>)| !expired(states, l.0, gc_watermark))
}

/// Whether `id` has registered a predicate that `record` satisfies.
pub open spec fn watches<T: Versioned>(
    locks: Seq<(u64, Arc<Filter<T::Predicate>>)>,
    id: u64,
    record: T,
) -> bool {
    exists|j: int|
        0 <= j < locks.len() && (#[trigger] locks[j]).0 == id && passes(*locks[j].1, record)
}

/// Whether `r` has registered a predicate that one of the versions of `k`
/// involved in the current write satisfies: what stood there, or anything put on
/// top since.
pub open spec fn watched<T: Versioned>(tv: TableView<T>, k: Seq<u8>, r: u64) -> bool {
    exists|i: int|
        settled(tv.slots[k].chain) - 1 <= i < tv.slots[k].chain.len() && 0 <= i
            && (#[trigger] tv.slots[k].chain[i]).value is Some && watches(
            tv.locks,
            r,
            *tv.slots[k].chain[i].value->Some_0,
        )
}

/// What [`Table::try_claim_unique`] did.
#[derive(Clone, Copy, PartialEq, Eq, Debug, Structural)]
pub enum Claim {
    /// The key was free and is now the caller's to release.
    Acquired,
    /// The caller already held it, from an earlier write of the same
    /// transaction.
    Held,
    /// Another running transaction holds it.
    Contended,
}

/// A registered table.
#[verifier::reject_recursive_types(T)]
pub struct Table<T: Versioned> {
    of: RecordType,
    name: &'static str,
    indexes: Vec<IndexDesc>,
    slots: SlotMap<T>,
    /// One per index, in declaration order: primary keys by index key.
    ///
    /// Entries are candidates, not answers: an index maps a key to primary keys
    /// that had that value at some point. A scan resolves each candidate's
    /// visible version and checks its key again. That makes index maintenance
    /// append-only.
    secondary: Vec<Ordered<Ordered<()>>>,
    /// Unique index keys claimed by running transactions, one map per index.
    ///
    /// Two transactions inserting the same key into two different slots are
    /// invisible to each other, so neither can find the other's row. The claim
    /// is what keeps them apart.
    unique_claims: Vec<Ordered<u64>>,
    /// Predicates that serializable transactions have evaluated and that a
    /// future insert or update might come to satisfy.
    predicate_locks: Vec<(u64, Arc<Filter<T::Predicate>>)>,
}

impl<T: Versioned> View for Table<T> {
    type V = TableView<T>;

    closed spec fn view(&self) -> TableView<T> {
        TableView {
            of: self.of,
            name: self.name,
            indexes: self.indexes@,
            slots: self.slots@,
            claims: self.unique_claims@.map_values(|c: Ordered<u64>| c@),
            locks: self.predicate_locks@,
            kept: self.slots.kept(),
        }
    }
}

/// Whether an index lists `key` under `index_key`.
spec fn candidate(index: Ordered<Ordered<()>>, index_key: Seq<u8>, key: Seq<u8>) -> bool {
    index@.contains_key(index_key) && index@[index_key]@.contains_key(key)
}

/// An index is sorted, and so is each of its entries.
spec fn index_wf(index: Ordered<Ordered<()>>) -> bool {
    &&& index.wf()
    &&& forall|i: int| 0 <= i < index.items@.len() ==> (#[trigger] index.items@[i]).1.wf()
}

/// Every version with a value is listed in every index.
spec fn covered<T: Versioned>(
    secondary: Seq<Ordered<Ordered<()>>>,
    slots: Map<Seq<u8>, SlotView<T>>,
) -> bool {
    forall|p: int, k: Seq<u8>, i: int|
        #![trigger secondary[p], slots[k].chain[i]]
        0 <= p < secondary.len() && 0 <= i < slots[k].chain.len()
            && slots[k].chain[i].value is Some ==> candidate(
            secondary[p],
            index_key_of(slots[k].chain[i], p),
            k,
        )
}

/// List `key` under `index_key`.
fn add_candidate(index: &mut Ordered<Ordered<()>>, index_key: IndexKey, key: &IndexKey)
    requires
        index_wf(*old(index)),
    ensures
        index_wf(*final(index)),
        forall|ik: Seq<u8>, pk: Seq<u8>| #[trigger]
            candidate(*final(index), ik, pk) <==> candidate(*old(index), ik, pk) || (ik
                == index_key@ && pk == key@),
{
    let ghost before = *index;
    proof {
        lemma_entries_wf(before);
    }
    let mut entry: Ordered<()> = match index.remove(&index_key) {
        Some(entry) => entry,
        None => Ordered::new(),
    };
    assert(entry.wf());
    let ghost listed = entry@;
    entry.insert(key.duplicate(), ());
    let ghost ik0 = index_key@;
    index.insert(index_key, entry);
    proof {
        assert forall|i: int| 0 <= i < index.items@.len() implies (
        #[trigger] index.items@[i]).1.wf() by {
            index.lemma_position(i);
            let k = index.items@[i].0@;
            if k != ik0 {
                assert(before@.contains_key(k));
                assert(before@[k] == index.items@[i].1);
            }
        }
        assert forall|ik: Seq<u8>, pk: Seq<u8>| #[trigger]
            candidate(*index, ik, pk) <==> candidate(before, ik, pk) || (ik == ik0 && pk
                == key@) by {
            if ik != ik0 {
                assert(index@.contains_key(ik) == before@.contains_key(ik));
            }
        }
    }
}

/// The stretch of an index outside of which no entry lies between `lo` and `hi`.
fn index_candidates<V>(index: &Ordered<V>, lo: &Bound<IndexKey>, hi: &Bound<IndexKey>) -> (r: (
    usize,
    usize,
))
    requires
        index.wf(),
    ensures
        r.0 <= index.items@.len(),
        r.1 <= index.items@.len(),
        forall|a: int|
            0 <= a < index.items@.len() && (a < r.0 || a >= r.1) ==> !in_range(
                *lo,
                *hi,
                (#[trigger] index.items@[a]).0@,
            ),
{
    let start: usize = match lo {
        Bound::Included(b) => index.seek(b),
        Bound::Excluded(b) => index.seek(b),
        Bound::Unbounded => 0,
    };
    let end: usize = match hi {
        Bound::Included(b) => {
            let (at, here) = index.find(b);
            let n: usize = index.items.len();
            if here && at < n {
                at + 1
            } else {
                at
            }
        },
        Bound::Excluded(b) => index.seek(b),
        Bound::Unbounded => index.items.len(),
    };
    proof {
        assert forall|a: int|
            0 <= a < index.items@.len() && (a < start || a >= end) implies !in_range(
            *lo,
            *hi,
            (#[trigger] index.items@[a]).0@,
        ) by {
            let k = index.items@[a].0@;
            lemma_lex_irreflexive(k);
            if a < start {
                match *lo {
                    Bound::Included(b) => lemma_lex_asymmetric(k, b@),
                    Bound::Excluded(b) => lemma_lex_asymmetric(k, b@),
                    Bound::Unbounded => {},
                }
            } else {
                index.lemma_position(a);
                match *hi {
                    Bound::Included(b) => {
                        assert(lex_le(b@, k));
                        if b@ == k {
                            assert(index@.contains_key(k));
                            assert(a < end);
                        }
                        lemma_lex_asymmetric(b@, k);
                    },
                    Bound::Excluded(b) => {
                        if b@ != k {
                            lemma_lex_asymmetric(b@, k);
                        }
                    },
                    Bound::Unbounded => {},
                }
            }
        }
    }
    (start, end)
}

proof fn lemma_entries_wf(index: Ordered<Ordered<()>>)
    requires
        index_wf(index),
    ensures
        forall|k: Seq<u8>| #[trigger] index@.contains_key(k) ==> index@[k].wf(),
{
    assert forall|k: Seq<u8>| #[trigger] index@.contains_key(k) implies index@[k].wf() by {
        let i = index.position(k);
        assert(index.items@[i].0@ == k);
        index.lemma_position(i);
    }
}

impl<T: Versioned> Table<T> {
    pub closed spec fn wf(&self) -> bool {
        &&& self.slots.wf()
        &&& self.secondary@.len() == self.indexes@.len()
        &&& forall|p: int| 0 <= p < self.secondary@.len() ==> index_wf(#[trigger] self.secondary@[p])
        &&& self.unique_claims@.len() == self.indexes@.len()
        &&& forall|p: int|
            0 <= p < self.unique_claims@.len() ==> (#[trigger] self.unique_claims@[p]).wf()
        &&& covered(self.secondary@, self.slots@)
    }

    pub proof fn lemma_wf(&self)
        requires
            self.wf(),
        ensures
            forall|k: Seq<u8>| #[trigger] self@.slots.contains_key(k),
            self@.claims.len() == self@.indexes.len(),
    {
        self.slots.lemma_view();
    }

    /// An empty table.
    pub fn new(of: RecordType, name: &'static str, indexes: Vec<IndexDesc>) -> (t: Self)
        ensures
            t.wf(),
            t@ == (TableView {
                of,
                name,
                indexes: indexes@,
                slots: Map::total(|k: Seq<u8>| SlotView::<T>::empty()),
                claims: Seq::new(indexes@.len(), |i: int| Map::<Seq<u8>, u64>::empty()),
                locks: Seq::empty(),
                kept: Set::empty(),
            }),
    {
        let mut secondary: Vec<Ordered<Ordered<()>>> = Vec::new();
        let mut unique_claims: Vec<Ordered<u64>> = Vec::new();
        let mut i: usize = 0;
        while i < indexes.len()
            invariant
                i <= indexes@.len(),
                secondary@.len() == i,
                unique_claims@.len() == i,
                forall|p: int| 0 <= p < i ==> index_wf(#[trigger] secondary@[p]),
                forall|p: int|
                    0 <= p < i ==> (#[trigger] unique_claims@[p]).wf() && unique_claims@[p]@
                        == Map::<Seq<u8>, u64>::empty(),
            decreases indexes@.len() - i,
        {
            secondary.push(Ordered::new());
            unique_claims.push(Ordered::new());
            i = i + 1;
        }
        let t = Table {
            of,
            name,
            indexes,
            slots: SlotMap::new(),
            secondary,
            unique_claims,
            predicate_locks: Vec::new(),
        };
        assert(t@.claims =~= Seq::new(indexes@.len(), |i: int| Map::<Seq<u8>, u64>::empty()));
        assert(t@.locks =~= Seq::empty());
        t
    }

    /// Which type the records are of.
    pub fn of(&self) -> (r: RecordType)
        ensures
            r == self@.of,
    {
        self.of
    }

    pub fn name(&self) -> (n: &'static str)
        ensures
            n == self@.name,
    {
        self.name
    }

    /// The indexes, in declaration order.
    pub fn indexes(&self) -> (r: &Vec<IndexDesc>)
        ensures
            r@ == self@.indexes,
    {
        &self.indexes
    }

    /// The slot for `key`, if there is a record of it.
    pub fn slot(&self, key: &IndexKey) -> (r: Option<&Slot<T>>)
        requires
            self.wf(),
        ensures
            match r {
                Some(slot) => slot.wf() && slot@ == self@.slots[key@],
                None => self@.slots[key@] == SlotView::<T>::empty(),
            },
            r is Some <==> self@.kept.contains(key@),
    {
        self.slots.get(key)
    }

    /// The version of `key`'s record that `reader` sees at `snapshot`.
    pub fn read(&self, key: &IndexKey, snapshot: Timestamp, reader: TxnId) -> (v: Option<
        &Version<T>,
    >)
        requires
            self.wf(),
        ensures
            match v {
                Some(v) => read_at(self@.slots[key@].chain, snapshot.0, reader.0) == Some(*v),
                None => read_at(self@.slots[key@].chain, snapshot.0, reader.0) is None,
            },
    {
        match self.slot(key) {
            Some(slot) => slot.read(snapshot, reader),
            None => None,
        }
    }

    /// Record `record`'s index keys as candidates, skipping any index whose key
    /// is unchanged from `previous`, the record this write displaces.
    ///
    /// Skipping is safe because nothing ever removes an entry: an unchanged
    /// key's entry is there from the write that first set it.
    fn index_record(&mut self, key: &IndexKey, record: &T, previous: Option<&T>)
        requires
            old(self).wf(),
            match previous {
                Some(x) => exists|i: int|
                    0 <= i < old(self)@.slots[key@].chain.len() && live_value(
                        Some(#[trigger] old(self)@.slots[key@].chain[i]),
                    ) == Some(*x),
                None => true,
            },
        ensures
            final(self).wf(),
            final(self)@ == old(self)@,
            forall|p: int|
                0 <= p < final(self).secondary@.len() ==> candidate(
                    #[trigger] final(self).secondary@[p],
                    record.spec_index_key(p),
                    key@,
                ),
    {
        let mut p: usize = 0;
        while p < self.secondary.len()
            invariant
                p <= self.secondary@.len(),
                old(self).wf(),
                self.secondary@.len() == old(self).secondary@.len(),
                *self == (Table { secondary: self.secondary, ..*old(self) }),
                forall|q: int|
                    0 <= q < self.secondary@.len() ==> index_wf(#[trigger] self.secondary@[q]),
                forall|q: int, ik: Seq<u8>, pk: Seq<u8>|
                    #![trigger candidate(self.secondary@[q], ik, pk)]
                    #![trigger candidate(old(self).secondary@[q], ik, pk)]
                    0 <= q < self.secondary@.len() && candidate(
                        old(self).secondary@[q],
                        ik,
                        pk,
                    ) ==> candidate(self.secondary@[q], ik, pk),
                forall|q: int|
                    0 <= q < p ==> candidate(
                        #[trigger] self.secondary@[q],
                        record.spec_index_key(q),
                        key@,
                    ),
                match previous {
                    Some(x) => exists|i: int|
                        0 <= i < old(self)@.slots[key@].chain.len() && live_value(
                            Some(#[trigger] old(self)@.slots[key@].chain[i]),
                        ) == Some(*x),
                    None => true,
                },
            decreases self.secondary@.len() - p,
        {
            let index_key = record.index_key(p);
            let unchanged: bool = match previous {
                Some(x) => same_bytes(x.index_key(p).as_bytes(), index_key.as_bytes()),
                None => false,
            };
            if unchanged {
                proof {
                    let i = choose|i: int|
                        0 <= i < old(self)@.slots[key@].chain.len() && live_value(
                            Some(#[trigger] old(self)@.slots[key@].chain[i]),
                        ) == Some(*previous->Some_0);
                    assert(candidate(
                        old(self).secondary@[p as int],
                        index_key_of(old(self).slots@[key@].chain[i], p as int),
                        key@,
                    ));
                }
            } else {
                let ghost before = self.secondary@;
                add_candidate(&mut self.secondary[p], index_key, key);
                assert forall|q: int, ik: Seq<u8>, pk: Seq<u8>|
                    #![trigger candidate(self.secondary@[q], ik, pk)]
                    #![trigger candidate(before[q], ik, pk)]
                    0 <= q < before.len() && candidate(before[q], ik, pk) implies candidate(
                    self.secondary@[q],
                    ik,
                    pk,
                ) by {
                    if q != p {
                        assert(self.secondary@[q] == before[q]);
                    }
                }
            }
            p = p + 1;
        }
        proof {
            assert forall|q: int, k: Seq<u8>, i: int|
                #![trigger self.secondary@[q], self.slots@[k].chain[i]]
                0 <= q < self.secondary@.len() && 0 <= i < self.slots@[k].chain.len()
                    && self.slots@[k].chain[i].value is Some implies candidate(
                self.secondary@[q],
                index_key_of(self.slots@[k].chain[i], q),
                k,
            ) by {
                assert(candidate(
                    old(self).secondary@[q],
                    index_key_of(self.slots@[k].chain[i], q),
                    k,
                ));
            }
        }
    }

    /// Add a version in flight on top of `key`'s chain, and list its record in
    /// the indexes. The slot is `txn`'s from then on.
    pub fn install(
        &mut self,
        key: &IndexKey,
        txn: TxnId,
        value: Option<Arc<T>>,
        writer: Option<TxnId>,
    )
        requires
            old(self).wf(),
            old(self)@.slots[key@].lock == 0 || old(self)@.slots[key@].lock == txn.0,
        ensures
            final(self).wf(),
            final(self)@ == (TableView {
                slots: old(self)@.slots.insert(
                    key@,
                    installed(old(self)@.slots[key@], txn.0, value, writer),
                ),
                kept: old(self)@.kept.insert(key@),
                ..old(self)@
            }),
    {
        let version = Version {
            begin: txn.tagged(),
            end: Timestamp::max_value().raw(),
            value,
            writer,
        };
        let ghost v = version;
        match &version.value {
            Some(record) => {
                let previous: Option<Arc<T>> = self.latest_value(key);
                match &previous {
                    Some(x) => self.index_record(key, record, Some(x)),
                    None => self.index_record(key, record, None),
                }
            },
            None => {},
        }
        let ghost before = *self;
        let slot = self.slots.get_or_create(key);
        slot.try_lock(txn);
        slot.install(version);
        proof {
            let after = self.slots@;
            assert forall|p: int, k: Seq<u8>, i: int|
                #![trigger self.secondary@[p], after[k].chain[i]]
                0 <= p < self.secondary@.len() && 0 <= i < after[k].chain.len()
                    && after[k].chain[i].value is Some implies candidate(
                self.secondary@[p],
                index_key_of(after[k].chain[i], p),
                k,
            ) by {
                assert(before.secondary@[p] == self.secondary@[p]);
                if k == key@ && i == before.slots@[k].chain.len() {
                    assert(after[k].chain[i] == v);
                } else {
                    assert(after[k].chain[i] == before.slots@[k].chain[i]);
                }
            }
            assert(self@ =~= (TableView {
                slots: old(self)@.slots.insert(
                    key@,
                    installed(old(self)@.slots[key@], txn.0, value, writer),
                ),
                kept: old(self)@.kept.insert(key@),
                ..old(self)@
            }));
        }
    }

    /// The record in the newest version of `key`, in flight or not.
    fn latest_value(&self, key: &IndexKey) -> (r: Option<Arc<T>>)
        requires
            self.wf(),
        ensures
            r == (if self@.slots[key@].chain.len() == 0 {
                None
            } else {
                self@.slots[key@].chain.last().value
            }),
    {
        match self.slot(key) {
            Some(slot) => {
                let n: usize = slot.chain.len();
                if n == 0 {
                    return None;
                }
                match &slot.chain[n - 1].value {
                    Some(x) => Some(x.clone()),
                    None => None,
                }
            },
            None => None,
        }
    }

    /// Replacing chains by ones that hold no value the old ones did not keeps
    /// the indexes complete.
    proof fn lemma_still_covered(
        secondary: Seq<Ordered<Ordered<()>>>,
        before: Map<Seq<u8>, SlotView<T>>,
        after: Map<Seq<u8>, SlotView<T>>,
    )
        requires
            covered(secondary, before),
            forall|k: Seq<u8>| #[trigger] no_new_values(before[k].chain, after[k].chain),
        ensures
            covered(secondary, after),
    {
        assert forall|p: int, k: Seq<u8>, i: int|
            #![trigger secondary[p], after[k].chain[i]]
            0 <= p < secondary.len() && 0 <= i < after[k].chain.len()
                && after[k].chain[i].value is Some implies candidate(
            secondary[p],
            index_key_of(after[k].chain[i], p),
            k,
        ) by {
            assert(no_new_values(before[k].chain, after[k].chain));
            let j = choose|j: int|
                0 <= j < before[k].chain.len() && (#[trigger] before[k].chain[j]).value
                    == after[k].chain[i].value;
            assert(candidate(secondary[p], index_key_of(before[k].chain[j], p), k));
        }
    }

    /// Make `txn`'s versions of `key` visible from `ts` on, release the slot, and
    /// prune what no snapshot at or above `watermark` can reach.
    pub fn commit_slot(&mut self, key: &IndexKey, txn: TxnId, ts: Timestamp, watermark: Timestamp)
        requires
            old(self).wf(),
            old(self)@.slots[key@].ok(),
            old(self)@.slots[key@].lock == txn.0,
            txn.0 != 0,
        ensures
            final(self).wf(),
            final(self)@ == (TableView {
                slots: old(self)@.slots.insert(
                    key@,
                    old(self)@.slots[key@].committed(txn.0, ts.0, watermark.0),
                ),
                ..old(self)@
            }),
    {
        proof {
            self.slots.lemma_kept();
            let held = self.slots@[key@];
            assert(self@.kept.insert(key@) =~= self@.kept);
        }
        let slot = self.slots.get_or_create(key);
        slot.commit(txn, ts);
        slot.prune(watermark);
        proof {
            let a = old(self)@.slots[key@].chain;
            let stamped_chain = stamped(a, txn.0, ts.0);
            assert forall|k: Seq<u8>| #[trigger]
                no_new_values(old(self).slots@[k].chain, self.slots@[k].chain) by {
                if k == key@ {
                    lemma_dead(stamped_chain, watermark.0);
                    let d = dead(stamped_chain, watermark.0) as int;
                    assert forall|i: int| 0 <= i < self.slots@[k].chain.len() implies exists|j: int|
                        0 <= j < a.len() && (#[trigger] a[j]).value == (
                        #[trigger] self.slots@[k].chain[i]).value by {
                        assert(a[i + d].value == self.slots@[k].chain[i].value);
                    }
                } else {
                    assert(self.slots@[k] == old(self).slots@[k]);
                }
            }
            Self::lemma_still_covered(self.secondary@, old(self).slots@, self.slots@);
            assert(self@ =~= (TableView {
                slots: old(self)@.slots.insert(
                    key@,
                    old(self)@.slots[key@].committed(txn.0, ts.0, watermark.0),
                ),
                ..old(self)@
            }));
        }
    }

    /// Take `txn`'s versions of `key` off its chain and release the slot.
    pub fn abort_slot(&mut self, key: &IndexKey, txn: TxnId)
        requires
            old(self).wf(),
            old(self)@.slots[key@].ok(),
            old(self)@.slots[key@].lock == txn.0,
            txn.0 != 0,
        ensures
            final(self).wf(),
            final(self)@ == (TableView {
                slots: old(self)@.slots.insert(key@, old(self)@.slots[key@].aborted()),
                ..old(self)@
            }),
    {
        proof {
            self.slots.lemma_kept();
            let held = self.slots@[key@];
            assert(self@.kept.insert(key@) =~= self@.kept);
        }
        let slot = self.slots.get_or_create(key);
        slot.abort(txn);
        proof {
            let a = old(self)@.slots[key@].chain;
            lemma_settled(a);
            assert forall|k: Seq<u8>| #[trigger]
                no_new_values(old(self).slots@[k].chain, self.slots@[k].chain) by {
                if k == key@ {
                    assert forall|i: int| 0 <= i < self.slots@[k].chain.len() implies exists|j: int|
                        0 <= j < a.len() && (#[trigger] a[j]).value == (
                        #[trigger] self.slots@[k].chain[i]).value by {
                        assert(a[i].value == self.slots@[k].chain[i].value);
                    }
                } else {
                    assert(self.slots@[k] == old(self).slots@[k]);
                }
            }
            Self::lemma_still_covered(self.secondary@, old(self).slots@, self.slots@);
            assert(self@ =~= (TableView {
                slots: old(self)@.slots.insert(key@, old(self)@.slots[key@].aborted()),
                ..old(self)@
            }));
        }
    }

    /// Register `txn` as a reader of `key`, creating its slot if absent: a read
    /// of a record that does not exist has to be noticed too.
    pub fn register_reader(&mut self, key: &IndexKey, txn: TxnId)
        requires
            old(self).wf(),
        ensures
            final(self).wf(),
            final(self)@ == (TableView {
                slots: old(self)@.slots.insert(
                    key@,
                    old(self)@.slots[key@].with_reader(txn.0),
                ),
                kept: old(self)@.kept.insert(key@),
                ..old(self)@
            }),
    {
        let slot = self.slots.get_or_create(key);
        slot.readers.register(txn);
        proof {
            lemma_same_chains(*old(self), self.slots@, key@);
            Self::lemma_still_covered(self.secondary@, old(self).slots@, self.slots@);
            assert(self@ =~= (TableView {
                slots: old(self)@.slots.insert(
                    key@,
                    old(self)@.slots[key@].with_reader(txn.0),
                ),
                kept: old(self)@.kept.insert(key@),
                ..old(self)@
            }));
        }
    }

    /// Everyone other than `txn` who has read `key`'s record and may still
    /// conflict with its writer. Drops the expired ones on the way.
    pub fn slot_readers(
        &mut self,
        key: &IndexKey,
        txn: TxnId,
        states: &TxnTable,
        gc_watermark: Timestamp,
    ) -> (r: Vec<u64>)
        requires
            old(self).wf(),
        ensures
            final(self).wf(),
            final(self)@ == (TableView {
                slots: old(self)@.slots.insert(
                    key@,
                    old(self)@.slots[key@].purged(states@, gc_watermark.0),
                ),
                ..old(self)@
            }),
            r@.to_set() == old(self)@.slots[key@].purged(
                states@,
                gc_watermark.0,
            ).readers.remove(txn.0),
    {
        if self.slots.get(key).is_none() {
            let r: Vec<u64> = Vec::new();
            proof {
                self.slots.lemma_view();
                let slot = self@.slots[key@];
                assert(slot.purged(states@, gc_watermark.0) =~= slot);
                assert(self@.slots.insert(key@, slot) =~= self@.slots);
                assert(r@.to_set() =~= slot.readers.remove(txn.0));
            }
            return r;
        }
        assert(self@.kept.insert(key@) =~= self@.kept);
        let slot = self.slots.get_or_create(key);
        let r = slot.readers.others(txn, states, gc_watermark);
        proof {
            lemma_same_chains(*old(self), self.slots@, key@);
            Self::lemma_still_covered(self.secondary@, old(self).slots@, self.slots@);
            assert(self@ =~= (TableView {
                slots: old(self)@.slots.insert(
                    key@,
                    old(self)@.slots[key@].purged(states@, gc_watermark.0),
                ),
                ..old(self)@
            }));
        }
        r
    }

    /// Prune one shard of the table, chosen by `round`.
    pub fn sweep(&mut self, round: usize, watermark: Timestamp)
        requires
            old(self).wf(),
        ensures
            final(self).wf(),
            final(self)@ == old(self)@.swept(round as int, watermark.0),
    {
        self.slots.sweep(round, watermark);
        proof {
            old(self).slots.lemma_view();
            assert forall|k: Seq<u8>| #[trigger]
                no_new_values(old(self).slots@[k].chain, self.slots@[k].chain) by {
                lemma_swept_values(old(self).slots@[k], watermark.0);
                lemma_no_new_values_refl(old(self).slots@[k].chain);
            }
            Self::lemma_still_covered(self.secondary@, old(self).slots@, self.slots@);
            assert(self@ =~= old(self)@.swept(round as int, watermark.0));
        }
    }

    /// Free the slots that hold no version. Returns how many records went.
    pub fn compact(&mut self) -> (freed: usize)
        requires
            old(self).wf(),
        ensures
            final(self).wf(),
            final(self)@ == old(self)@.compacted(),
            freed == saturated(old(self)@.kept.len() - final(self)@.kept.len()),
    {
        let freed: usize = self.slots.compact();
        proof {
            assert forall|k: Seq<u8>| #[trigger]
                no_new_values(old(self).slots@[k].chain, self.slots@[k].chain) by {
                lemma_no_new_values_refl(old(self).slots@[k].chain);
            }
            Self::lemma_still_covered(self.secondary@, old(self).slots@, self.slots@);
            assert(self@ =~= old(self)@.compacted());
        }
        freed
    }

    /// Every record visible at `snapshot` that passes `filter`, in primary key
    /// order.
    ///
    /// This is the primitive behind scans and behind their revalidation at
    /// commit. They must agree exactly, since a predicate read is validated by
    /// running it again and comparing.
    pub fn matching(
        &self,
        snapshot: Timestamp,
        reader: TxnId,
        filter: &Filter<T::Predicate>,
    ) -> (out: Ordered<Version<T>>)
        requires
            self.wf(),
        ensures
            out.wf(),
            out@ == scanned(self@.slots, snapshot.0, reader.0, *filter),
    {
        let ghost goal = scanned(self@.slots, snapshot.0, reader.0, *filter);
        let ghost mut done: Set<Seq<u8>> = Set::empty();
        proof {
            self.slots.lemma_view();
        }
        let mut out: Ordered<Version<T>> = Ordered::new();
        let mut s: usize = 0;
        while s < SHARDS
            invariant
                s <= SHARDS,
                self.wf(),
                self.slots.shards@.len() == SHARDS,
                out.wf(),
                goal == scanned(self@.slots, snapshot.0, reader.0, *filter),
                gathered(out@, goal, done),
                forall|t: int, j: int|
                    0 <= t < s && 0 <= j < self.slots.shards@[t].records@.len() ==> done.contains(
                        (#[trigger] self.slots.shards@[t].records@[j]).key@,
                    ),
                slots_shown(self.slots),
            decreases SHARDS - s,
        {
            let mut i: usize = 0;
            while i < self.slots.shards[s].records.len()
                invariant
                    s < SHARDS,
                    i <= self.slots.shards@[s as int].records@.len(),
                    self.wf(),
                    self.slots.shards@.len() == SHARDS,
                    out.wf(),
                    goal == scanned(self@.slots, snapshot.0, reader.0, *filter),
                    gathered(out@, goal, done),
                    forall|t: int, j: int|
                        0 <= t < s && 0 <= j < self.slots.shards@[t].records@.len()
                            ==> done.contains(
                            (#[trigger] self.slots.shards@[t].records@[j]).key@,
                        ),
                    forall|j: int|
                        0 <= j < i ==> done.contains(
                            (#[trigger] self.slots.shards@[s as int].records@[j]).key@,
                        ),
                    slots_shown(self.slots),
                decreases self.slots.shards@[s as int].records@.len() - i,
            {
                let record = &self.slots.shards[s].records[i];
                let ghost k = record.key@;
                assert(self@.slots[k] == self.slots.shards@[s as int].records@[i as int].slot@);
                let ghost before = out@;
                match record.slot.read(snapshot, reader) {
                    Some(version) => match &version.value {
                        Some(value) => {
                            if check_filter::<T>(filter, value) {
                                out.insert(record.key.duplicate(), version.share());
                            }
                        },
                        None => {},
                    },
                    None => {},
                }
                proof {
                    done = done.insert(k);
                    assert(gathered(out@, goal, done));
                }
                i = i + 1;
            }
            s = s + 1;
        }
        proof {
            assert forall|k: Seq<u8>| #[trigger] goal.contains_key(k) implies done.contains(k) by {
                self.lemma_recorded(k);
                let i = choose|i: int|
                    0 <= i < self.slots.shards@[home(k)].records@.len() && (
                    #[trigger] self.slots.shards@[home(k)].records@[i]).key@ == k;
                assert(done.contains(self.slots.shards@[home(k)].records@[i].key@));
            }
            assert(out@ =~= goal);
        }
        out
    }

    /// Add the writers of every version of `key`'s record that began after `since`
    /// and by `now`.
    pub fn changes_to(
        &self,
        key: &IndexKey,
        since: Timestamp,
        now: Timestamp,
        writers: &mut Vec<u64>,
    )
        requires
            self.wf(),
        ensures
            forall|w: u64| #[trigger]
                final(writers)@.contains(w) <==> old(writers)@.contains(w) || exists|ts: u64|
                    #[trigger]
                    began(self@.slots[key@], since.0, now.0, ts) && writer_at(
                        self@.slots[key@],
                        ts,
                    ) == Some(TxnId(w)),
    {
        match self.slot(key) {
            Some(slot) => {
                changes_in(slot, since, now, None, writers);
                assert(forall|ts: u64| #[trigger]
                    began(slot@, since.0, now.0, ts) ==> concerns(
                        slot@,
                        since.0,
                        now.0,
                        None,
                        ts,
                    ));
            },
            None => {
                assert forall|ts: u64| !#[trigger] began(
                    self@.slots[key@],
                    since.0,
                    now.0,
                    ts,
                ) by {
                    lemma_newest_index(
                        self@.slots[key@].chain,
                        |v: Version<T>| visible(v, ts, NOBODY),
                    );
                }
            },
        }
    }

    /// Add the writers of every version that began after `since` and by `now` and
    /// that a scan for `filter` returns, or that replaced one it returns.
    pub fn changes_matching(
        &self,
        filter: &Filter<T::Predicate>,
        since: Timestamp,
        now: Timestamp,
        writers: &mut Vec<u64>,
    )
        requires
            self.wf(),
            match *filter {
                Filter::Range { position, .. } => position < self@.indexes.len(),
                _ => true,
            },
        ensures
            forall|w: u64| #[trigger]
                final(writers)@.contains(w) <==> old(writers)@.contains(w) || exists|
                    k: Seq<u8>,
                    ts: u64,
                | #[trigger]
                    touched(self@.slots[k], since.0, now.0, *filter, ts) && writer_at(
                        self@.slots[k],
                        ts,
                    ) == Some(TxnId(w)),
    {
        let ghost all = changes(self@.slots, since.0, now.0, *filter);
        match filter {
            Filter::Range { position, lo, hi } => self.changes_in_index(
                *position,
                lo,
                hi,
                filter,
                since,
                now,
                writers,
            ),
            _ => self.changes_anywhere(filter, since, now, writers),
        }
        proof {
            assert forall|w: u64| #[trigger]
                writers@.contains(w) <==> old(writers)@.contains(w) || exists|
                    k: Seq<u8>,
                    ts: u64,
                | #[trigger]
                    touched(self@.slots[k], since.0, now.0, *filter, ts) && writer_at(
                        self@.slots[k],
                        ts,
                    ) == Some(TxnId(w)) by {
                if exists|c: Change| #[trigger] all.contains(c) && c.writer == Some(TxnId(w)) {
                    let c = choose|c: Change| #[trigger]
                        all.contains(c) && c.writer == Some(TxnId(w));
                    assert(touched(self@.slots[c.key], since.0, now.0, *filter, c.ts));
                }
                if exists|k: Seq<u8>, ts: u64| #[trigger]
                    touched(self@.slots[k], since.0, now.0, *filter, ts) && writer_at(
                        self@.slots[k],
                        ts,
                    ) == Some(TxnId(w)) {
                    let (k, ts) = choose|k: Seq<u8>, ts: u64| #[trigger]
                        touched(self@.slots[k], since.0, now.0, *filter, ts) && writer_at(
                            self@.slots[k],
                            ts,
                        ) == Some(TxnId(w));
                    assert(all.contains(
                        Change { key: k, ts, writer: writer_at(self@.slots[k], ts) },
                    ));
                }
            }
        }
    }

    /// [`Table::changes_matching`] by looking at every record.
    fn changes_anywhere(
        &self,
        filter: &Filter<T::Predicate>,
        since: Timestamp,
        now: Timestamp,
        writers: &mut Vec<u64>,
    )
        requires
            self.wf(),
        ensures
            collected(
                changes(self@.slots, since.0, now.0, *filter),
                Set::full(),
                old(writers)@,
                final(writers)@,
            ),
    {
        let ghost all = changes(self@.slots, since.0, now.0, *filter);
        let ghost mut done: Set<Seq<u8>> = Set::empty();
        proof {
            self.slots.lemma_view();
        }
        let mut s: usize = 0;
        while s < SHARDS
            invariant
                s <= SHARDS,
                self.wf(),
                self.slots.shards@.len() == SHARDS,
                all == changes(self@.slots, since.0, now.0, *filter),
                collected(all, done, old(writers)@, writers@),
                forall|t: int, j: int|
                    0 <= t < s && 0 <= j < self.slots.shards@[t].records@.len() ==> done.contains(
                        (#[trigger] self.slots.shards@[t].records@[j]).key@,
                    ),
                slots_shown(self.slots),
            decreases SHARDS - s,
        {
            let mut i: usize = 0;
            while i < self.slots.shards[s].records.len()
                invariant
                    s < SHARDS,
                    i <= self.slots.shards@[s as int].records@.len(),
                    self.wf(),
                    self.slots.shards@.len() == SHARDS,
                    all == changes(self@.slots, since.0, now.0, *filter),
                    collected(all, done, old(writers)@, writers@),
                    forall|t: int, j: int|
                        0 <= t < s && 0 <= j < self.slots.shards@[t].records@.len()
                            ==> done.contains(
                            (#[trigger] self.slots.shards@[t].records@[j]).key@,
                        ),
                    forall|j: int|
                        0 <= j < i ==> done.contains(
                            (#[trigger] self.slots.shards@[s as int].records@[j]).key@,
                        ),
                    slots_shown(self.slots),
                decreases self.slots.shards@[s as int].records@.len() - i,
            {
                let record = &self.slots.shards[s].records[i];
                let ghost k = record.key@;
                assert(self@.slots[k] == self.slots.shards@[s as int].records@[i as int].slot@);
                let ghost before = writers@;
                changes_in(&record.slot, since, now, Some(filter), writers);
                proof {
                    lemma_collected_more(
                        self@.slots,
                        since.0,
                        now.0,
                        filter,
                        done,
                        k,
                        old(writers)@,
                        before,
                        writers@,
                    );
                    done = done.insert(k);
                }
                i = i + 1;
            }
            s = s + 1;
        }
        proof {
            assert forall|c: Change| #[trigger] all.contains(c) implies done.contains(c.key) by {
                self.lemma_recorded(c.key);
                let k = c.key;
                let i = choose|i: int|
                    0 <= i < self.slots.shards@[home(k)].records@.len() && (
                    #[trigger] self.slots.shards@[home(k)].records@[i]).key@ == k;
                assert(done.contains(self.slots.shards@[home(k)].records@[i].key@));
            }
            lemma_collected_all(all, done, old(writers)@, writers@);
        }
    }

    /// [`Table::changes_matching`] by looking at what an index lists. Entries are
    /// never removed, so it lists every version in the range.
    fn changes_in_index(
        &self,
        position: usize,
        lo: &Bound<IndexKey>,
        hi: &Bound<IndexKey>,
        filter: &Filter<T::Predicate>,
        since: Timestamp,
        now: Timestamp,
        writers: &mut Vec<u64>,
    )
        requires
            self.wf(),
            position < self@.indexes.len(),
            *filter == (Filter::<T::Predicate>::Range { position, lo: *lo, hi: *hi }),
        ensures
            collected(
                changes(self@.slots, since.0, now.0, *filter),
                Set::full(),
                old(writers)@,
                final(writers)@,
            ),
    {
        let ghost all = changes(self@.slots, since.0, now.0, *filter);
        let ghost mut done: Set<Seq<u8>> = Set::empty();
        let ghost p = position as int;
        let index = &self.secondary[position];
        assert(index_wf(*index));
        let (start, end) = index_candidates(index, lo, hi);
        let mut i: usize = start;
        while i < end
            invariant
                start <= i,
                end <= index.items@.len(),
                self.wf(),
                p == position < self.secondary@.len(),
                *index == self.secondary@[p],
                index_wf(*index),
                all == changes(self@.slots, since.0, now.0, *filter),
                collected(all, done, old(writers)@, writers@),
                forall|a: int, b: int|
                    #![trigger index.items@[a].1.items@[b]]
                    start <= a < i && 0 <= b < index.items@[a].1.items@.len() ==> done.contains(
                        index.items@[a].1.items@[b].0@,
                    ),
            decreases end - i,
        {
            let entry = &index.items[i].1;
            let mut j: usize = 0;
            while j < entry.items.len()
                invariant
                    i < index.items@.len(),
                    *entry == index.items@[i as int].1,
                    j <= entry.items@.len(),
                    self.wf(),
                    all == changes(self@.slots, since.0, now.0, *filter),
                    collected(all, done, old(writers)@, writers@),
                    forall|a: int, b: int|
                        #![trigger index.items@[a].1.items@[b]]
                        start <= a < i && 0 <= b < index.items@[a].1.items@.len()
                            ==> done.contains(index.items@[a].1.items@[b].0@),
                    forall|b: int|
                        0 <= b < j ==> done.contains((#[trigger] entry.items@[b]).0@),
                decreases entry.items@.len() - j,
            {
                let key = &entry.items[j].0;
                let ghost k = key@;
                let ghost before = writers@;
                match self.slot(key) {
                    Some(slot) => changes_in(slot, since, now, Some(filter), writers),
                    None => {
                        proof {
                            assert forall|ts: u64| !#[trigger] concerns(
                                self@.slots[k],
                                since.0,
                                now.0,
                                Some(filter),
                                ts,
                            ) by {
                                lemma_newest_index(
                                    self@.slots[k].chain,
                                    |v: Version<T>| visible(v, ts, NOBODY),
                                );
                            }
                        }
                    },
                }
                proof {
                    lemma_collected_more(
                        self@.slots,
                        since.0,
                        now.0,
                        filter,
                        done,
                        k,
                        old(writers)@,
                        before,
                        writers@,
                    );
                    done = done.insert(k);
                }
                j = j + 1;
            }
            i = i + 1;
        }
        proof {
            assert forall|c: Change| #[trigger] all.contains(c) implies done.contains(c.key) by {
                let s = if hit(self@.slots[c.key], c.ts, NOBODY, *filter) {
                    c.ts
                } else {
                    (c.ts - 1) as u64
                };
                assert(hit(self@.slots[c.key], s, NOBODY, *filter));
                self.lemma_candidate(p, c.key, s, NOBODY);
                let ik = index_key_of(read_at(self@.slots[c.key].chain, s, NOBODY)->Some_0, p);
                assert(in_range(*lo, *hi, ik));
                let a = index.position(ik);
                assert(index.items@[a].0@ == ik);
                index.lemma_position(a);
                let entry = index.items@[a].1;
                assert(entry.wf());
                let b = entry.position(c.key);
                assert(entry.items@[b].0@ == c.key);
                assert(done.contains(index.items@[a].1.items@[b].0@));
            }
            lemma_collected_all(all, done, old(writers)@, writers@);
        }
    }

    /// A record with a version is in the map.
    proof fn lemma_recorded(&self, k: Seq<u8>)
        requires
            self.wf(),
            self@.slots[k].chain.len() > 0 || exists|s: u64, r: u64, f: Filter<T::Predicate>|
                hit(self@.slots[k], s, r, f),
        ensures
            0 <= home(k) < SHARDS,
            self.slots.shards@[home(k)].has(k),
    {
        self.slots.lemma_view();
        assert(0 <= home(k) < SHARDS);
        if self@.slots[k].chain.len() == 0 {
            let (s, r, f) = choose|s: u64, r: u64, f: Filter<T::Predicate>|
                hit(self@.slots[k], s, r, f);
            lemma_newest_index(self@.slots[k].chain, |v: Version<T>| visible(v, s, r));
        }
        assert(self.slots@[k] != SlotView::<T>::empty());
    }

    /// [`Table::matching`] as `reader` sees it and as nobody sees it, from one
    /// pass over the table.
    ///
    /// A serializable scan needs both: the first is what the caller gets, the
    /// second goes into the read set. They differ only on rows that `reader`
    /// itself wrote.
    pub fn matching_pair(
        &self,
        snapshot: Timestamp,
        reader: TxnId,
        filter: &Filter<T::Predicate>,
    ) -> (out: (Ordered<Version<T>>, Ordered<u64>))
        requires
            self.wf(),
            forall|k: Seq<u8>| (#[trigger] self@.slots[k]).ok(),
        ensures
            out.0.wf(),
            out.0@ == scanned(self@.slots, snapshot.0, reader.0, *filter),
            out.1.wf(),
            out.1@ == begins(scanned(self@.slots, snapshot.0, NOBODY, *filter)),
    {
        let ghost goal = scanned(self@.slots, snapshot.0, reader.0, *filter);
        let ghost base = begins(scanned(self@.slots, snapshot.0, NOBODY, *filter));
        let ghost mut done: Set<Seq<u8>> = Set::empty();
        proof {
            self.slots.lemma_view();
        }
        let mut seen: Ordered<Version<T>> = Ordered::new();
        let mut committed: Ordered<u64> = Ordered::new();
        let mut s: usize = 0;
        while s < SHARDS
            invariant
                s <= SHARDS,
                self.wf(),
                self.slots.shards@.len() == SHARDS,
                forall|k: Seq<u8>| (#[trigger] self@.slots[k]).ok(),
                seen.wf(),
                committed.wf(),
                goal == scanned(self@.slots, snapshot.0, reader.0, *filter),
                base == begins(scanned(self@.slots, snapshot.0, NOBODY, *filter)),
                gathered(seen@, goal, done),
                gathered(committed@, base, done),
                forall|t: int, j: int|
                    0 <= t < s && 0 <= j < self.slots.shards@[t].records@.len() ==> done.contains(
                        (#[trigger] self.slots.shards@[t].records@[j]).key@,
                    ),
                slots_shown(self.slots),
            decreases SHARDS - s,
        {
            let mut i: usize = 0;
            while i < self.slots.shards[s].records.len()
                invariant
                    s < SHARDS,
                    i <= self.slots.shards@[s as int].records@.len(),
                    self.wf(),
                    self.slots.shards@.len() == SHARDS,
                    forall|k: Seq<u8>| (#[trigger] self@.slots[k]).ok(),
                    seen.wf(),
                    committed.wf(),
                    goal == scanned(self@.slots, snapshot.0, reader.0, *filter),
                    base == begins(scanned(self@.slots, snapshot.0, NOBODY, *filter)),
                    gathered(seen@, goal, done),
                    gathered(committed@, base, done),
                    forall|t: int, j: int|
                        0 <= t < s && 0 <= j < self.slots.shards@[t].records@.len()
                            ==> done.contains(
                            (#[trigger] self.slots.shards@[t].records@[j]).key@,
                        ),
                    forall|j: int|
                        0 <= j < i ==> done.contains(
                            (#[trigger] self.slots.shards@[s as int].records@[j]).key@,
                        ),
                    slots_shown(self.slots),
                decreases self.slots.shards@[s as int].records@.len() - i,
            {
                let record = &self.slots.shards[s].records[i];
                let ghost k = record.key@;
                assert(self@.slots[k] == self.slots.shards@[s as int].records@[i as int].slot@);
                let (a, b) = record.slot.read_pair(snapshot, reader);
                match a {
                    Some(version) => match &version.value {
                        Some(value) => {
                            if check_filter::<T>(filter, value) {
                                seen.insert(record.key.duplicate(), version.share());
                            }
                        },
                        None => {},
                    },
                    None => {},
                }
                match b {
                    Some(version) => match &version.value {
                        Some(value) => {
                            if check_filter::<T>(filter, value) {
                                committed.insert(record.key.duplicate(), version.begin);
                            }
                        },
                        None => {},
                    },
                    None => {},
                }
                proof {
                    done = done.insert(k);
                    assert(gathered(seen@, goal, done));
                    assert(gathered(committed@, base, done));
                }
                i = i + 1;
            }
            s = s + 1;
        }
        proof {
            assert forall|k: Seq<u8>|
                goal.contains_key(k) || base.contains_key(k) implies #[trigger] done.contains(
                k,
            ) by {
                self.lemma_recorded(k);
                let i = choose|i: int|
                    0 <= i < self.slots.shards@[home(k)].records@.len() && (
                    #[trigger] self.slots.shards@[home(k)].records@[i]).key@ == k;
                assert(done.contains(self.slots.shards@[home(k)].records@[i].key@));
            }
            assert(seen@ =~= goal);
            assert(committed@ =~= base);
        }
        (seen, committed)
    }

    /// Every record visible at `snapshot` whose key in the index at `position`
    /// lies between `lo` and `hi`, in index order.
    ///
    /// Index entries are candidates: each is resolved to its visible version and
    /// its key extracted again, which filters out entries left behind by updates
    /// and by writes that were rolled back.
    pub fn matching_in_index(
        &self,
        position: usize,
        lo: &Bound<IndexKey>,
        hi: &Bound<IndexKey>,
        snapshot: Timestamp,
        reader: TxnId,
    ) -> (out: Vec<(IndexKey, Version<T>)>)
        requires
            self.wf(),
            position < self@.indexes.len(),
        ensures
            lists(
                out@,
                scanned(
                    self@.slots,
                    snapshot.0,
                    reader.0,
                    Filter::Range { position, lo: *lo, hi: *hi },
                ),
            ),
            in_index_order(out@, position as int),
    {
        let ghost filter = Filter::<T::Predicate>::Range { position, lo: *lo, hi: *hi };
        let ghost goal = scanned(self@.slots, snapshot.0, reader.0, filter);
        let ghost p = position as int;
        let index = &self.secondary[position];
        assert(index_wf(*index));
        let mut out: Vec<(IndexKey, Version<T>)> = Vec::new();
        let (start, end) = index_candidates(index, lo, hi);
        let mut i: usize = start;
        proof {
            assert forall|a: int, k: Seq<u8>|
                #![trigger index.items@[a], goal.contains_key(k)]
                0 <= a < index.items@.len() && (a < start || a >= end) && goal.contains_key(
                    k,
                ) implies index_key_of(goal[k], p) != index.items@[a].0@ by {
                assert(!in_range(*lo, *hi, index.items@[a].0@));
            }
        }
        while i < end
            invariant
                end <= index.items@.len(),
                forall|a: int, k: Seq<u8>|
                    #![trigger index.items@[a], goal.contains_key(k)]
                    end <= a < index.items@.len() && goal.contains_key(k) ==> index_key_of(
                        goal[k],
                        p,
                    ) != index.items@[a].0@,
                self.wf(),
                p == position < self.secondary@.len(),
                *index == self.secondary@[p],
                index_wf(*index),
                filter == (Filter::<T::Predicate>::Range { position, lo: *lo, hi: *hi }),
                goal == scanned(self@.slots, snapshot.0, reader.0, filter),
                in_index_order(out@, p),
                rows_from(out@, goal),
                rows_before(out@, *index, i as int, p),
                forall|a: int, k: Seq<u8>|
                    #![trigger index.items@[a], goal.contains_key(k)]
                    0 <= a < i && goal.contains_key(k) && index_key_of(goal[k], p)
                        == index.items@[a].0@ ==> listed(out@, k),
            decreases end - i,
        {
            let index_key = &index.items[i].0;
            let ghost ik = index_key@;
            let entry = &index.items[i].1;
            assert(entry.wf());
            let ghost before = out@;
            proof {
                lemma_index_below(out@, *index, *entry, i as int, p);
            }
            if lo.admits_from(index_key) && hi.admits_to(index_key) {
                let mut j: usize = 0;
                while j < entry.items.len()
                    invariant
                        i < index.items@.len(),
                        j <= entry.items@.len(),
                        self.wf(),
                        p == position < self.secondary@.len(),
                        *index == self.secondary@[p],
                        index_wf(*index),
                        ik == index_key@,
                        *index_key == index.items@[i as int].0,
                        *entry == index.items@[i as int].1,
                        entry.wf(),
                        in_range(*lo, *hi, ik),
                        filter == (Filter::<T::Predicate>::Range { position, lo: *lo, hi: *hi }),
                        goal == scanned(self@.slots, snapshot.0, reader.0, filter),
                        in_index_order(out@, p),
                        rows_from(out@, goal),
                        rows_before(out@, *index, i + 1, p),
                        rows_below(out@, *entry, ik, j as int, p),
                        forall|k: Seq<u8>| listed(before, k) ==> #[trigger] listed(out@, k),
                        forall|b: int|
                            0 <= b < j && goal.contains_key((#[trigger] entry.items@[b]).0@)
                                && index_key_of(goal[entry.items@[b].0@], p) == ik ==> listed(
                                out@,
                                entry.items@[b].0@,
                            ),
                    decreases entry.items@.len() - j,
                {
                    let key = &entry.items[j].0;
                    let ghost mid = out@;
                    match self.read(key, snapshot, reader) {
                        Some(version) => match &version.value {
                            Some(value) => {
                                if same_bytes(
                                    value.index_key(position).as_bytes(),
                                    index_key.as_bytes(),
                                ) {
                                    out.push((key.duplicate(), version.share()));
                                    proof {
                                        assert(out@.drop_last() =~= mid);
                                        lemma_row_added(
                                            mid,
                                            out@,
                                            *index,
                                            *entry,
                                            i as int,
                                            j as int,
                                            p,
                                        );
                                    }
                                }
                            },
                            None => {},
                        },
                        None => {},
                    }
                    j = j + 1;
                }
            }
            proof {
                assert forall|a: int, k: Seq<u8>|
                    #![trigger index.items@[a], goal.contains_key(k)]
                    0 <= a < i + 1 && goal.contains_key(k) && index_key_of(goal[k], p)
                        == index.items@[a].0@ implies listed(out@, k) by {
                    if a < i {
                        assert(listed(before, k));
                        assert(listed(out@, k));
                    } else {
                        self.lemma_candidate(p, k, snapshot.0, reader.0);
                        index.lemma_position(i as int);
                        let b = entry.position(k);
                        assert(entry.items@[b].0@ == k);
                    }
                }
            }
            i = i + 1;
        }
        proof {
            assert forall|k: Seq<u8>| #[trigger] goal.contains_key(k) implies exists|a: int|
                0 <= a < out@.len() && (#[trigger] out@[a]).0@ == k by {
                self.lemma_candidate(p, k, snapshot.0, reader.0);
                let b = index.position(index_key_of(goal[k], p));
                assert(index.items@[b].0@ == index_key_of(goal[k], p));
                assert(listed(out@, k));
            }
        }
        out
    }

    /// A record that is visible at all is listed under its index key.
    proof fn lemma_candidate(&self, p: int, k: Seq<u8>, snapshot: u64, reader: u64)
        requires
            self.wf(),
            0 <= p < self.secondary@.len(),
            live_value(read_at(self@.slots[k].chain, snapshot, reader)) is Some,
        ensures
            candidate(
                self.secondary@[p],
                index_key_of(read_at(self@.slots[k].chain, snapshot, reader)->Some_0, p),
                k,
            ),
    {
        let f = |v: Version<T>| visible(v, snapshot, reader);
        let chain = self.slots@[k].chain;
        lemma_newest_index(chain, f);
        let i = newest_index(chain, f);
        assert(chain[i].value is Some);
        assert(candidate(self.secondary@[p], index_key_of(self.slots@[k].chain[i], p), k));
    }

    /// Claim `index_key` on the unique index at `position` for `txn`, unless
    /// another running transaction holds it.
    pub fn try_claim_unique(&mut self, position: usize, index_key: &IndexKey, txn: TxnId) -> (r:
        Claim)
        requires
            old(self).wf(),
            position < old(self)@.indexes.len(),
        ensures
            final(self).wf(),
            r == (if !old(self)@.claims[position as int].contains_key(index_key@) {
                Claim::Acquired
            } else if old(self)@.claims[position as int][index_key@] == txn.0 {
                Claim::Held
            } else {
                Claim::Contended
            }),
            final(self)@ == (if r == Claim::Acquired {
                TableView {
                    claims: old(self)@.claims.update(
                        position as int,
                        old(self)@.claims[position as int].insert(index_key@, txn.0),
                    ),
                    ..old(self)@
                }
            } else {
                old(self)@
            }),
    {
        match self.unique_claims[position].get(index_key) {
            Some(owner) => if *owner == txn.0 {
                Claim::Held
            } else {
                Claim::Contended
            },
            None => {
                self.unique_claims[position].insert(index_key.duplicate(), txn.0);
                assert(self@ =~= (TableView {
                    claims: old(self)@.claims.update(
                        position as int,
                        old(self)@.claims[position as int].insert(index_key@, txn.0),
                    ),
                    ..old(self)@
                }));
                Claim::Acquired
            },
        }
    }

    /// Drop a claim taken by [`Table::try_claim_unique`].
    ///
    /// Checks the owner, so that releasing a claim `txn` does not hold cannot
    /// evict someone else's.
    pub fn release_unique(&mut self, position: usize, index_key: &IndexKey, txn: TxnId)
        requires
            old(self).wf(),
            position < old(self)@.indexes.len(),
        ensures
            final(self).wf(),
            final(self)@ == (if old(self)@.claims[position as int].contains_key(index_key@)
                && old(self)@.claims[position as int][index_key@] == txn.0 {
                TableView {
                    claims: old(self)@.claims.update(
                        position as int,
                        old(self)@.claims[position as int].remove(index_key@),
                    ),
                    ..old(self)@
                }
            } else {
                old(self)@
            }),
    {
        let mine: bool = match self.unique_claims[position].get(index_key) {
            Some(owner) => *owner == txn.0,
            None => false,
        };
        if mine {
            self.unique_claims[position].remove(index_key);
            assert(self@ =~= (TableView {
                claims: old(self)@.claims.update(
                    position as int,
                    old(self)@.claims[position as int].remove(index_key@),
                ),
                ..old(self)@
            }));
        }
    }

    /// Whether some record other than `own_key`'s currently holds `index_key`.
    ///
    /// Only sound as half of a claim: on its own it cannot see a concurrent
    /// writer of the same key.
    pub fn unique_key_taken(
        &self,
        position: usize,
        index_key: &IndexKey,
        own_key: &IndexKey,
        reader: TxnId,
    ) -> (r: bool)
        requires
            self.wf(),
            position < self@.indexes.len(),
        ensures
            r == taken(self@.slots, position as int, index_key@, own_key@, reader.0),
    {
        let ghost p = position as int;
        let index = &self.secondary[position];
        let ghost entry_view = index@[index_key@]@;
        proof {
            assert(index_wf(*index));
            lemma_entries_wf(*index);
            assert forall|k: Seq<u8>| #[trigger]
                holds_index_key(self@.slots[k], p, index_key@, reader.0) implies candidate(
                *index,
                index_key@,
                k,
            ) by {
                let f = |v: Version<T>| committed_or_own(v, reader.0);
                let chain = self.slots@[k].chain;
                lemma_newest_index(chain, f);
                let i = newest_index(chain, f);
                assert(chain[i].value is Some);
                assert(candidate(self.secondary@[p], index_key_of(self.slots@[k].chain[i], p), k));
            }
        }
        let entry = match index.get(index_key) {
            Some(entry) => entry,
            None => {
                return false;
            },
        };
        let mut i: usize = 0;
        while i < entry.items.len()
            invariant
                i <= entry.items@.len(),
                self.wf(),
                entry.wf(),
                p == position,
                forall|j: int|
                    0 <= j < i ==> (#[trigger] entry.items@[j]).0@ == own_key@ || !holds_index_key(
                        self@.slots[entry.items@[j].0@],
                        p,
                        index_key@,
                        reader.0,
                    ),
            decreases entry.items@.len() - i,
        {
            let key = &entry.items[i].0;
            if !same_bytes(key.as_bytes(), own_key.as_bytes()) {
                let holds: bool = match self.slot(key) {
                    Some(slot) => match slot.read_committed_now(reader) {
                        Some(version) => match &version.value {
                            Some(value) => same_bytes(
                                value.index_key(position).as_bytes(),
                                index_key.as_bytes(),
                            ),
                            None => false,
                        },
                        None => false,
                    },
                    None => {
                        proof {
                            lemma_newest_index(
                                self@.slots[key@].chain,
                                |v: Version<T>| committed_or_own(v, reader.0),
                            );
                        }
                        false
                    },
                };
                if holds {
                    assert(holds_index_key(self@.slots[key@], p, index_key@, reader.0));
                    return true;
                }
            }
            i = i + 1;
        }
        proof {
            assert forall|k: Seq<u8>| k != own_key@ implies !#[trigger] holds_index_key(
                self@.slots[k],
                p,
                index_key@,
                reader.0,
            ) by {
                if holds_index_key(self@.slots[k], p, index_key@, reader.0) {
                    assert(candidate(*index, index_key@, k));
                    let j = entry.position(k);
                    assert(entry.items@[j].0@ == k);
                }
            }
        }
        false
    }

    /// Register that `txn` evaluated `filter` over this table.
    pub fn register_predicate(&mut self, txn: TxnId, filter: Arc<Filter<T::Predicate>>)
        requires
            old(self).wf(),
        ensures
            final(self).wf(),
            final(self)@ == (TableView {
                locks: old(self)@.locks.push((txn.0, filter)),
                ..old(self)@
            }),
    {
        self.predicate_locks.push((txn.0, filter));
        assert(self@ =~= (TableView {
            locks: old(self)@.locks.push((txn.0, filter)),
            ..old(self)@
        }));
    }

    /// Drop the predicates whose transactions no longer matter.
    fn purge_predicates(&mut self, states: &TxnTable, gc_watermark: Timestamp)
        requires
            old(self).wf(),
        ensures
            final(self).wf(),
            final(self)@ == (TableView {
                locks: live_locks(old(self)@.locks, states@, gc_watermark.0),
                ..old(self)@
            }),
    {
        let ghost keep = |l: (u64, Arc<Filter<T::Predicate>>)|
            !expired(states@, l.0, gc_watermark.0);
        let mut kept: Vec<(u64, Arc<Filter<T::Predicate>>)> = Vec::new();
        let mut i: usize = 0;
        proof {
            reveal(Seq::filter);
            assert(self.predicate_locks@.take(0).filter(keep) =~= Seq::empty());
        }
        while i < self.predicate_locks.len()
            invariant
                *self == *old(self),
                i <= self.predicate_locks@.len(),
                keep == (|l: (u64, Arc<Filter<T::Predicate>>)|
                    !expired(states@, l.0, gc_watermark.0)),
                kept@ == self.predicate_locks@.take(i as int).filter(keep),
            decreases self.predicate_locks@.len() - i,
        {
            proof {
                reveal(Seq::filter);
                assert(self.predicate_locks@.take(i + 1).drop_last()
                    =~= self.predicate_locks@.take(i as int));
            }
            if !states.is_expired(self.predicate_locks[i].0, gc_watermark) {
                kept.push((self.predicate_locks[i].0, self.predicate_locks[i].1.clone()));
            }
            i = i + 1;
        }
        assert(self.predicate_locks@.take(i as int) =~= self.predicate_locks@);
        self.predicate_locks = kept;
        assert(self@ =~= (TableView {
            locks: live_locks(old(self)@.locks, states@, gc_watermark.0),
            ..old(self)@
        }));
    }

    /// Transactions other than `writer` whose registered predicate `record`
    /// satisfies: those whose predicate read this write turns into a phantom.
    ///
    /// Drops expired locks on the way, since this is the only place they are
    /// walked.
    pub fn predicate_readers_of(
        &mut self,
        record: &T,
        writer: TxnId,
        states: &TxnTable,
        gc_watermark: Timestamp,
    ) -> (r: Vec<u64>)
        requires
            old(self).wf(),
        ensures
            final(self).wf(),
            final(self)@ == (TableView {
                locks: live_locks(old(self)@.locks, states@, gc_watermark.0),
                ..old(self)@
            }),
            forall|id: u64| #[trigger]
                r@.contains(id) <==> id != writer.0 && watches(final(self)@.locks, id, *record),
    {
        self.purge_predicates(states, gc_watermark);
        let mut out: Vec<u64> = Vec::new();
        let mut i: usize = 0;
        while i < self.predicate_locks.len()
            invariant
                i <= self.predicate_locks@.len(),
                forall|id: u64| #[trigger]
                    out@.contains(id) <==> id != writer.0 && exists|j: int|
                        0 <= j < i && (#[trigger] self.predicate_locks@[j]).0 == id && passes(
                            *self.predicate_locks@[j].1,
                            *record,
                        ),
            decreases self.predicate_locks@.len() - i,
        {
            let ghost before = out@;
            let id: u64 = self.predicate_locks[i].0;
            let mine: bool = id != writer.0 && check_filter::<T>(
                &self.predicate_locks[i].1,
                record,
            );
            if mine {
                out.push(id);
                assert(out@.last() == id);
            }
            proof {
                assert forall|x: u64| #[trigger]
                    out@.contains(x) <==> x != writer.0 && exists|j: int|
                        0 <= j < i + 1 && (#[trigger] self.predicate_locks@[j]).0 == x && passes(
                            *self.predicate_locks@[j].1,
                            *record,
                        ) by {
                    if out@.contains(x) {
                        let a = choose|a: int| 0 <= a < out@.len() && out@[a] == x;
                        if a < before.len() {
                            assert(before[a] == x);
                            assert(before.contains(x));
                        } else {
                            assert(self.predicate_locks@[i as int].0 == x);
                        }
                    }
                    if x != writer.0 && exists|j: int|
                        0 <= j < i + 1 && (#[trigger] self.predicate_locks@[j]).0 == x && passes(
                            *self.predicate_locks@[j].1,
                            *record,
                        ) {
                        let j = choose|j: int|
                            0 <= j < i + 1 && (#[trigger] self.predicate_locks@[j]).0 == x
                                && passes(*self.predicate_locks@[j].1, *record);
                        if j < i {
                            assert(before.contains(x));
                            let a = choose|a: int| 0 <= a < before.len() && before[a] == x;
                            assert(out@[a] == x);
                        }
                    }
                }
            }
            i = i + 1;
        }
        out
    }

    /// Transactions other than `txn` that read what its write of `key`
    /// overwrites, and that may still conflict with it.
    ///
    /// Two sources, and both are needed. The read locks of the slot cover
    /// readers of the record as it was. The registered predicates cover readers
    /// of rows that did not match when they looked, and of rows that matched and
    /// are about to vanish.
    pub fn conflicting_readers(
        &mut self,
        key: &IndexKey,
        txn: TxnId,
        states: &TxnTable,
        gc_watermark: Timestamp,
    ) -> (r: Vec<u64>)
        requires
            old(self).wf(),
        ensures
            final(self).wf(),
            final(self)@ == (TableView {
                slots: old(self)@.slots.insert(
                    key@,
                    old(self)@.slots[key@].purged(states@, gc_watermark.0),
                ),
                locks: live_locks(old(self)@.locks, states@, gc_watermark.0),
                ..old(self)@
            }),
            forall|x: u64| #[trigger]
                r@.contains(x) <==> x != txn.0 && !expired(states@, x, gc_watermark.0) && (
                old(self)@.slots[key@].readers.contains(x) || watched(old(self)@, key@, x)),
    {
        let ghost tv = self@;
        let ghost chain = tv.slots[key@].chain;
        let mut out: Vec<u64> = self.slot_readers(key, txn, states, gc_watermark);
        let ghost first = out@;
        assert forall|x: u64| #[trigger] first.contains(x) <==> x != txn.0 && !expired(
            states@,
            x,
            gc_watermark.0,
        ) && tv.slots[key@].readers.contains(x) by {
            assert(first.to_set().contains(x) == first.contains(x));
        }
        self.purge_predicates(states, gc_watermark);
        let ghost live = live_locks(tv.locks, states@, gc_watermark.0);
        let ghost after = self@;
        proof {
            lemma_live_locks_twice(tv.locks, states@, gc_watermark.0);
            lemma_settled(chain);
        }
        let involved: Vec<Arc<T>> = self.involved_values(key);
        let mut i: usize = 0;
        while i < involved.len()
            invariant
                i <= involved@.len(),
                self.wf(),
                self@ == after,
                after.locks == live,
                live_locks(live, states@, gc_watermark.0) == live,
                forall|x: u64| #[trigger]
                    out@.contains(x) <==> first.contains(x) || (x != txn.0 && exists|j: int|
                        0 <= j < i && watches::<T>(live, x, *#[trigger] involved@[j])),
            decreases involved@.len() - i,
        {
            let ghost before = out@;
            let more: Vec<u64> = self.predicate_readers_of(
                &involved[i],
                txn,
                states,
                gc_watermark,
            );
            assert(self@ =~= after);
            append_ids(&mut out, &more);
            assert forall|x: u64| #[trigger]
                out@.contains(x) <==> first.contains(x) || (x != txn.0 && exists|j: int|
                    0 <= j < i + 1 && watches::<T>(live, x, *#[trigger] involved@[j])) by {
                if x != txn.0 && exists|j: int|
                    0 <= j < i + 1 && watches::<T>(live, x, *#[trigger] involved@[j]) {
                    let j = choose|j: int|
                        0 <= j < i + 1 && watches::<T>(live, x, *#[trigger] involved@[j]);
                    if j < i {
                        assert(before.contains(x));
                    } else {
                        assert(more@.contains(x));
                    }
                }
                if before.contains(x) && !first.contains(x) {
                    let j = choose|j: int|
                        0 <= j < i && watches::<T>(live, x, *#[trigger] involved@[j]);
                    assert(0 <= j < i + 1);
                }
                if more@.contains(x) {
                    assert(watches::<T>(live, x, *involved@[i as int]));
                }
            }
            i = i + 1;
        }
        proof {
            assert forall|x: u64| #[trigger]
                out@.contains(x) <==> x != txn.0 && !expired(states@, x, gc_watermark.0) && (
                tv.slots[key@].readers.contains(x) || watched(tv, key@, x)) by {
                if out@.contains(x) && !first.contains(x) {
                    let j = choose|j: int|
                        0 <= j < involved@.len() && watches::<T>(live, x, *#[trigger] involved@[j]);
                    lemma_live_watches::<T>(
                        tv.locks,
                        states@,
                        gc_watermark.0,
                        x,
                        behind(involved@[j]),
                    );
                    let c = choose|c: int|
                        settled(chain) - 1 <= c < chain.len() && 0 <= c && (
                        #[trigger] chain[c]).value == Some(involved@[j]);
                    assert(watches(tv.locks, x, *tv.slots[key@].chain[c].value->Some_0));
                }
                if x != txn.0 && !expired(states@, x, gc_watermark.0) && watched(tv, key@, x) {
                    let c = choose|c: int|
                        settled(chain) - 1 <= c < chain.len() && 0 <= c && (
                        #[trigger] chain[c]).value is Some && watches(
                            tv.locks,
                            x,
                            *chain[c].value->Some_0,
                        );
                    assert(involved@.contains(chain[c].value->Some_0));
                    let j = choose|j: int|
                        0 <= j < involved@.len() && involved@[j] == chain[c].value->Some_0;
                    lemma_live_watches::<T>(
                        tv.locks,
                        states@,
                        gc_watermark.0,
                        x,
                        behind(involved@[j]),
                    );
                    assert(watches::<T>(live, x, *involved@[j]));
                }
            }
        }
        out
    }

    /// The records in the versions of `key` that the current write involves:
    /// what stood there, and everything put on top since.
    fn involved_values(&self, key: &IndexKey) -> (r: Vec<Arc<T>>)
        requires
            self.wf(),
        ensures
            ({
                let chain = self@.slots[key@].chain;
                &&& forall|c: int|
                    settled(chain) - 1 <= c < chain.len() && 0 <= c && (
                    #[trigger] chain[c]).value is Some ==> r@.contains(chain[c].value->Some_0)
                &&& forall|j: int|
                    #![trigger r@[j]]
                    0 <= j < r@.len() ==> exists|c: int|
                        settled(chain) - 1 <= c < chain.len() && 0 <= c && (
                        #[trigger] chain[c]).value == Some(r@[j])
            }),
    {
        let mut out: Vec<Arc<T>> = Vec::new();
        let ghost chain = self@.slots[key@].chain;
        proof {
            lemma_settled(chain);
        }
        match self.slot(key) {
            Some(slot) => {
                let mut c: usize = slot.chain.len();
                let mut more: bool = true;
                while c > 0 && more
                    invariant
                        c <= chain.len(),
                        chain == slot.chain@,
                        settled(chain) <= chain.len(),
                        forall|i: int|
                            settled(chain) <= i < chain.len() ==> is_in_flight(
                                (#[trigger] chain[i]).begin,
                            ),
                        settled(chain) > 0 ==> !is_in_flight(chain[settled(chain) - 1].begin),
                        if more {
                            settled(chain) <= c
                        } else {
                            c == settled(chain) - 1
                        },
                        forall|d: int|
                            c <= d < chain.len() && (#[trigger] chain[d]).value is Some
                                ==> out@.contains(chain[d].value->Some_0),
                        forall|j: int|
                            #![trigger out@[j]]
                            0 <= j < out@.len() ==> exists|d: int|
                                settled(chain) - 1 <= d < chain.len() && 0 <= d && (
                                #[trigger] chain[d]).value == Some(out@[j]),
                    decreases c,
                {
                    c = c - 1;
                    let version = &slot.chain[c];
                    let ghost before = out@;
                    match Visibility::decode(version.begin) {
                        Visibility::CommittedAt(_) => {
                            more = false;
                        },
                        Visibility::InFlight(_) => {},
                    }
                    assert(*version == chain[c as int]);
                    match &version.value {
                        Some(x) => {
                            out.push(x.clone());
                            assert(out@.last() == chain[c as int].value->Some_0);
                        },
                        None => {},
                    }
                    assert forall|d: int|
                        c <= d < chain.len() && (
                        #[trigger] chain[d]).value is Some implies out@.contains(
                        chain[d].value->Some_0,
                    ) by {
                        if d > c {
                            assert(before.contains(chain[d].value->Some_0));
                            let j = choose|j: int|
                                0 <= j < before.len() && before[j] == chain[d].value->Some_0;
                            assert(out@[j] == before[j]);
                        } else {
                            assert(out@[out@.len() - 1] == chain[d].value->Some_0);
                        }
                    }
                    assert forall|j: int|
                        #![trigger out@[j]]
                        0 <= j < out@.len() implies exists|d: int|
                        settled(chain) - 1 <= d < chain.len() && 0 <= d && (
                        #[trigger] chain[d]).value == Some(out@[j]) by {
                        if j < before.len() {
                            assert(out@[j] == before[j]);
                        } else {
                            assert(chain[c as int].value == Some(out@[j]));
                        }
                    }
                }
            },
            None => {},
        }
        out
    }

    /// Every key with a version has a record.
    pub proof fn lemma_kept(&self)
        requires
            self.wf(),
        ensures
            self@.kept.finite(),
            forall|k: Seq<u8>|
                #![trigger self@.slots[k]]
                self@.slots[k].chain.len() > 0 ==> self@.kept.contains(k),
    {
        self.slots.lemma_kept();
        assert forall|k: Seq<u8>|
            #![trigger self@.slots[k]]
            self@.slots[k].chain.len() > 0 implies self@.kept.contains(k) by {
            assert(self.slots@[k] != SlotView::<T>::empty());
        }
    }
}

/// The record that is shared.
spec fn behind<T>(x: Arc<T>) -> T {
    *x
}

/// A version that some scan would have returned, or that replaced one it would
/// have.
struct Change {
    key: Seq<u8>,
    ts: u64,
    writer: Option<TxnId>,
}

/// What a scan for `filter` at `since` did not see.
spec fn changes<T: Versioned>(
    slots: Map<Seq<u8>, SlotView<T>>,
    since: u64,
    now: u64,
    filter: Filter<T::Predicate>,
) -> Set<Change> {
    Set::new(
        |c: Change|
            touched(slots[c.key], since, now, filter, c.ts) && c.writer == writer_at(
                slots[c.key],
                c.ts,
            ),
    )
}

/// The changes to the keys in `done` have been looked at: `after` has their
/// writers on top of those in `before`.
spec fn collected(
    all: Set<Change>,
    done: Set<Seq<u8>>,
    before: Seq<u64>,
    after: Seq<u64>,
) -> bool {
    forall|w: u64| #[trigger]
        after.contains(w) <==> before.contains(w) || exists|c: Change| #[trigger]
            all.contains(c) && done.contains(c.key) && c.writer == Some(TxnId(w))
}

/// Looking at one more key.
proof fn lemma_collected_more<T: Versioned>(
    slots: Map<Seq<u8>, SlotView<T>>,
    since: u64,
    now: u64,
    filter: &Filter<T::Predicate>,
    done: Set<Seq<u8>>,
    k: Seq<u8>,
    base: Seq<u64>,
    before: Seq<u64>,
    after: Seq<u64>,
)
    requires
        collected(changes(slots, since, now, *filter), done, base, before),
        forall|w: u64| #[trigger]
            after.contains(w) <==> before.contains(w) || exists|ts: u64| #[trigger]
                concerns(slots[k], since, now, Some(filter), ts) && writer_at(slots[k], ts) == Some(
                    TxnId(w),
                ),
    ensures
        collected(changes(slots, since, now, *filter), done.insert(k), base, after),
{
    let all = changes(slots, since, now, *filter);
    let next = done.insert(k);
    assert forall|ts: u64| #[trigger] concerns(slots[k], since, now, Some(filter), ts) implies ({
        let c = Change { key: k, ts, writer: writer_at(slots[k], ts) };
        all.contains(c) && next.contains(c.key)
    }) by {
        let c = Change { key: k, ts, writer: writer_at(slots[k], ts) };
        assert(all.contains(c));
    }
    assert forall|w: u64| #[trigger]
        after.contains(w) <==> base.contains(w) || exists|c: Change| #[trigger]
            all.contains(c) && next.contains(c.key) && c.writer == Some(TxnId(w)) by {
        if before.contains(w) && !base.contains(w) {
            let c = choose|c: Change| #[trigger]
                all.contains(c) && done.contains(c.key) && c.writer == Some(TxnId(w));
            assert(all.contains(c) && next.contains(c.key));
        }
        if exists|ts: u64| #[trigger]
            concerns(slots[k], since, now, Some(filter), ts) && writer_at(slots[k], ts) == Some(
                TxnId(w),
            ) {
            let ts = choose|ts: u64| #[trigger]
                concerns(slots[k], since, now, Some(filter), ts) && writer_at(slots[k], ts) == Some(
                    TxnId(w),
                );
            let c = Change { key: k, ts, writer: writer_at(slots[k], ts) };
            assert(all.contains(c) && next.contains(c.key));
        }
        if exists|c: Change| #[trigger]
            all.contains(c) && next.contains(c.key) && c.writer == Some(TxnId(w)) {
            let c = choose|c: Change| #[trigger]
                all.contains(c) && next.contains(c.key) && c.writer == Some(TxnId(w));
            if c.key == k {
                assert(concerns(slots[k], since, now, Some(filter), c.ts));
            } else {
                assert(before.contains(w));
            }
        }
    }
}

/// Where every change is to a key that has been looked at, all have been.
proof fn lemma_collected_all(
    all: Set<Change>,
    done: Set<Seq<u8>>,
    before: Seq<u64>,
    after: Seq<u64>,
)
    requires
        collected(all, done, before, after),
        forall|c: Change| #[trigger] all.contains(c) ==> done.contains(c.key),
    ensures
        collected(all, Set::full(), before, after),
{
    assert forall|w: u64| #[trigger]
        after.contains(w) <==> before.contains(w) || exists|c: Change| #[trigger]
            all.contains(c) && Set::full().contains(c.key) && c.writer == Some(TxnId(w)) by {
        if exists|c: Change| #[trigger]
            all.contains(c) && Set::full().contains(c.key) && c.writer == Some(TxnId(w)) {
            let c = choose|c: Change| #[trigger]
                all.contains(c) && Set::full().contains(c.key) && c.writer == Some(TxnId(w));
            assert(done.contains(c.key));
        }
    }
}

/// Whether the version that began at `ts` is one to look at: any, or one that a
/// scan for `filter` returns or that replaced one it returns.
spec fn concerns<T: Versioned>(
    slot: SlotView<T>,
    since: u64,
    now: u64,
    filter: Option<&Filter<T::Predicate>>,
    ts: u64,
) -> bool {
    match filter {
        None => began(slot, since, now, ts),
        Some(f) => touched(slot, since, now, *f, ts),
    }
}

/// Whether a scan for `filter` at `snapshot`, as nobody sees it, returns this
/// record.
fn hits<T: Versioned>(slot: &Slot<T>, snapshot: Timestamp, filter: &Filter<T::Predicate>) -> (r:
    bool)
    ensures
        r == hit(slot@, snapshot.0, NOBODY, *filter),
{
    match slot.read(snapshot, TxnId::none()) {
        Some(version) => match &version.value {
            Some(value) => check_filter::<T>(filter, value),
            None => false,
        },
        None => false,
    }
}

/// Add the writers of the versions in `slot` that began after `since` and by
/// `now`, and that `filter` is about.
///
/// A version that was replaced within its own transaction was never there for
/// anyone to see, and is left out.
fn changes_in<T: Versioned>(
    slot: &Slot<T>,
    since: Timestamp,
    now: Timestamp,
    filter: Option<&Filter<T::Predicate>>,
    writers: &mut Vec<u64>,
)
    ensures
        forall|w: u64| #[trigger]
            final(writers)@.contains(w) <==> old(writers)@.contains(w) || exists|ts: u64|
                #[trigger]
                concerns(slot@, since.0, now.0, filter, ts) && writer_at(slot@, ts) == Some(
                    TxnId(w),
                ),
{
    let mut i: usize = 0;
    while i < slot.chain.len()
        invariant
            i <= slot.chain@.len(),
            forall|w: u64| #[trigger]
                writers@.contains(w) <==> old(writers)@.contains(w) || exists|j: int|
                    0 <= j < i && concerns(
                        slot@,
                        since.0,
                        now.0,
                        filter,
                        (#[trigger] slot.chain@[j]).begin,
                    ) && writer_at(slot@, slot.chain@[j].begin) == Some(TxnId(w)),
        decreases slot.chain@.len() - i,
    {
        let ts: u64 = slot.chain[i].begin;
        let ghost before = writers@;
        let ghost this = concerns(slot@, since.0, now.0, filter, ts);
        if since.0 < ts && ts <= now.0 {
            match slot.read(Timestamp(ts), TxnId::none()) {
                Some(version) => {
                    let matters: bool = version.begin == ts && match filter {
                        None => true,
                        Some(f) => hits(slot, Timestamp(ts), f) || hits(slot, Timestamp(ts - 1), f),
                    };
                    assert(matters == this);
                    if matters {
                        match version.writer {
                            Some(id) => add_id(writers, id.0),
                            None => {},
                        }
                    }
                },
                None => {},
            }
        }
        proof {
            assert(slot.chain@[i as int].begin == ts);
            assert(forall|w: u64| #[trigger]
                writers@.contains(w) <==> before.contains(w) || (this && writer_at(slot@, ts)
                    == Some(TxnId(w))));
            assert forall|w: u64| #[trigger]
                writers@.contains(w) <==> old(writers)@.contains(w) || exists|j: int|
                    0 <= j < i + 1 && concerns(
                        slot@,
                        since.0,
                        now.0,
                        filter,
                        (#[trigger] slot.chain@[j]).begin,
                    ) && writer_at(slot@, slot.chain@[j].begin) == Some(TxnId(w)) by {
                if before.contains(w) && !old(writers)@.contains(w) {
                    let j = choose|j: int|
                        0 <= j < i && concerns(
                            slot@,
                            since.0,
                            now.0,
                            filter,
                            (#[trigger] slot.chain@[j]).begin,
                        ) && writer_at(slot@, slot.chain@[j].begin) == Some(TxnId(w));
                    assert(0 <= j < i + 1);
                }
                if exists|j: int|
                    0 <= j < i + 1 && concerns(
                        slot@,
                        since.0,
                        now.0,
                        filter,
                        (#[trigger] slot.chain@[j]).begin,
                    ) && writer_at(slot@, slot.chain@[j].begin) == Some(TxnId(w)) {
                    let j = choose|j: int|
                        0 <= j < i + 1 && concerns(
                            slot@,
                            since.0,
                            now.0,
                            filter,
                            (#[trigger] slot.chain@[j]).begin,
                        ) && writer_at(slot@, slot.chain@[j].begin) == Some(TxnId(w));
                    if j < i {
                        assert(before.contains(w));
                    }
                }
            }
        }
        i = i + 1;
    }
    proof {
        assert forall|ts: u64| #[trigger] concerns(slot@, since.0, now.0, filter, ts) implies exists|
            j: int,
        | 0 <= j < slot.chain@.len() && (#[trigger] slot.chain@[j]).begin == ts by {
            let p = |v: Version<T>| visible(v, ts, NOBODY);
            lemma_newest_index(slot@.chain, p);
            let j = newest_index(slot@.chain, p);
            assert(slot.chain@[j].begin == ts);
        }
    }
}

/// Add an id to a list.
pub(crate) fn add_id(ids: &mut Vec<u64>, id: u64)
    ensures
        forall|x: u64| #[trigger] final(ids)@.contains(x) <==> old(ids)@.contains(x) || x == id,
{
    let ghost before = ids@;
    ids.push(id);
    assert(ids@.last() == id);
    assert forall|x: u64| #[trigger] ids@.contains(x) <==> before.contains(x) || x == id by {
        if before.contains(x) {
            let j = choose|j: int| 0 <= j < before.len() && before[j] == x;
            assert(ids@[j] == x);
        }
        if ids@.contains(x) {
            let j = choose|j: int| 0 <= j < ids@.len() && ids@[j] == x;
            if j < before.len() {
                assert(before[j] == x);
            }
        }
    }
}

/// Add the ids in `more` to `out`.
pub(crate) fn append_ids(out: &mut Vec<u64>, more: &Vec<u64>)
    ensures
        forall|x: u64| #[trigger]
            final(out)@.contains(x) <==> old(out)@.contains(x) || more@.contains(x),
{
    let ghost a = out@;
    let ghost n = out@.len() as int;
    out.extend_from_slice(more.as_slice());
    assert(out@ =~= a + more@);
    assert forall|x: u64| #[trigger] out@.contains(x) <==> a.contains(x) || more@.contains(x) by {
        if a.contains(x) {
            let i = choose|i: int| 0 <= i < a.len() && a[i] == x;
            assert(out@[i] == x);
        }
        if more@.contains(x) {
            let i = choose|i: int| 0 <= i < more@.len() && more@[i] == x;
            assert(out@[n + i] == x);
        }
        if out@.contains(x) {
            let i = choose|i: int| 0 <= i < out@.len() && out@[i] == x;
            if i < n {
                assert(a[i] == x);
            } else {
                assert(more@[i - n] == x);
            }
        }
    }
}

/// Dropping the locks that no longer matter twice is dropping them once.
pub proof fn lemma_live_locks_twice<P>(
    locks: Seq<(u64, Arc<Filter<P>>)>,
    states: Map<u64, TxnState>,
    gc: u64,
)
    ensures
        live_locks(live_locks(locks, states, gc), states, gc) == live_locks(locks, states, gc),
    decreases locks.len(),
{
    reveal(Seq::filter);
    if locks.len() > 0 {
        let rest = locks.drop_last();
        lemma_live_locks_twice(rest, states, gc);
        if !expired(states, locks.last().0, gc) {
            let kept = live_locks(rest, states, gc);
            assert(kept.push(locks.last()).drop_last() =~= kept);
        }
    }
}

/// Whoever watches and still matters is among the live locks.
proof fn lemma_live_watches<T: Versioned>(
    locks: Seq<(u64, Arc<Filter<T::Predicate>>)>,
    states: Map<u64, TxnState>,
    gc: u64,
    r: u64,
    x: T,
)
    ensures
        watches(live_locks(locks, states, gc), r, x) <==> watches(locks, r, x) && !expired(
            states,
            r,
            gc,
        ),
    decreases locks.len(),
{
    reveal(Seq::filter);
    let live = live_locks(locks, states, gc);
    if locks.len() > 0 {
        let rest = locks.drop_last();
        let kept = live_locks(rest, states, gc);
        lemma_live_watches(rest, states, gc, r, x);
        let n = rest.len() as int;
        if watches(locks, r, x) {
            let j = choose|j: int|
                0 <= j < locks.len() && (#[trigger] locks[j]).0 == r && passes(*locks[j].1, x);
            if j < n {
                assert(rest[j] == locks[j]);
                assert(watches(rest, r, x));
            } else if !expired(states, r, gc) {
                assert(live[kept.len() as int] == locks[n]);
            }
        }
        if watches(rest, r, x) {
            let j = choose|j: int|
                0 <= j < rest.len() && (#[trigger] rest[j]).0 == r && passes(*rest[j].1, x);
            assert(locks[j] == rest[j]);
        }
        if watches(kept, r, x) {
            let j = choose|j: int|
                0 <= j < kept.len() && (#[trigger] kept[j]).0 == r && passes(*kept[j].1, x);
            assert(live[j] == kept[j]);
        }
        if watches(live, r, x) {
            let j = choose|j: int|
                0 <= j < live.len() && (#[trigger] live[j]).0 == r && passes(*live[j].1, x);
            if j < kept.len() {
                assert(kept[j] == live[j]);
                assert(watches(kept, r, x));
            } else {
                assert(locks[n] == live[j]);
            }
        }
    }
}

/// Whoever still matters watches a record before a purge just if it does after
/// one.
pub proof fn lemma_watched_live<T: Versioned>(
    a: TableView<T>,
    b: TableView<T>,
    k: Seq<u8>,
    r: u64,
    states: Map<u64, TxnState>,
    gc: u64,
)
    requires
        b.slots[k].chain == a.slots[k].chain,
        b.locks == a.locks || b.locks == live_locks(a.locks, states, gc),
        !expired(states, r, gc),
    ensures
        watched(a, k, r) == watched(b, k, r),
{
    let chain = a.slots[k].chain;
    assert forall|i: int|
        0 <= i < chain.len() && (#[trigger] chain[i]).value is Some implies watches(
        a.locks,
        r,
        *chain[i].value->Some_0,
    ) == watches(b.locks, r, *chain[i].value->Some_0) by {
        lemma_live_watches::<T>(a.locks, states, gc, r, behind(chain[i].value->Some_0));
    }
    if watched(a, k, r) {
        let i = choose|i: int|
            settled(chain) - 1 <= i < chain.len() && 0 <= i && (#[trigger] chain[i]).value is Some
                && watches(a.locks, r, *chain[i].value->Some_0);
        assert(b.slots[k].chain[i].value is Some);
    }
    if watched(b, k, r) {
        let i = choose|i: int|
            settled(b.slots[k].chain) - 1 <= i < b.slots[k].chain.len() && 0 <= i && (
            #[trigger] b.slots[k].chain[i]).value is Some && watches(
                b.locks,
                r,
                *b.slots[k].chain[i].value->Some_0,
            );
        assert(a.slots[k].chain[i].value is Some);
    }
}

/// `out` is the part of `goal` on the keys in `done`.
spec fn gathered<V>(out: Map<Seq<u8>, V>, goal: Map<Seq<u8>, V>, done: Set<Seq<u8>>) -> bool {
    &&& forall|k: Seq<u8>| #[trigger]
        out.contains_key(k) <==> done.contains(k) && goal.contains_key(k)
    &&& forall|k: Seq<u8>| out.contains_key(k) ==> #[trigger] out[k] == goal[k]
}

/// Whether `rows` hold a row with this key.
spec fn listed<V>(rows: Seq<(IndexKey, V)>, k: Seq<u8>) -> bool {
    exists|i: int| 0 <= i < rows.len() && (#[trigger] rows[i]).0@ == k
}

/// The index key of every row comes before those of the entries from `i` on.
spec fn rows_before<T: Versioned>(
    rows: Seq<(IndexKey, Version<T>)>,
    index: Ordered<Ordered<()>>,
    i: int,
    p: int,
) -> bool {
    forall|a: int, b: int|
        #![trigger rows[a], index.items@[b]]
        0 <= a < rows.len() && i <= b < index.items@.len() ==> lex_lt(
            index_key_of(rows[a].1, p),
            index.items@[b].0@,
        )
}

/// Every row is below `ik`, or under it with a primary key below those from `j`
/// on.
spec fn rows_below<T: Versioned>(
    rows: Seq<(IndexKey, Version<T>)>,
    entry: Ordered<()>,
    ik: Seq<u8>,
    j: int,
    p: int,
) -> bool {
    forall|a: int, b: int|
        #![trigger rows[a], entry.items@[b]]
        0 <= a < rows.len() && j <= b < entry.items@.len() ==> lex_lt(
            index_key_of(rows[a].1, p),
            ik,
        ) || (index_key_of(rows[a].1, p) == ik && lex_lt(rows[a].0@, entry.items@[b].0@))
}

/// Every row is an entry of `goal`.
spec fn rows_from<V>(rows: Seq<(IndexKey, V)>, goal: Map<Seq<u8>, V>) -> bool {
    forall|i: int|
        0 <= i < rows.len() ==> goal.contains_key((#[trigger] rows[i]).0@) && goal[rows[i].0@]
            == rows[i].1
}

/// Each record holds the slot of its key.
spec fn slots_shown<T>(slots: SlotMap<T>) -> bool {
    forall|s: int, i: int|
        0 <= s < SHARDS && 0 <= i < slots.shards@[s].records@.len()
            ==> slots@[(#[trigger] slots.shards@[s].records@[i]).key@]
            == slots.shards@[s].records@[i].slot@
}

/// `after` holds no value that `before` does not.
spec fn no_new_values<T>(before: Seq<Version<T>>, after: Seq<Version<T>>) -> bool {
    forall|i: int|
        0 <= i < after.len() ==> exists|j: int|
            0 <= j < before.len() && (#[trigger] before[j]).value == (#[trigger] after[i]).value
}

proof fn lemma_no_new_values_refl<T>(chain: Seq<Version<T>>)
    ensures
        no_new_values(chain, chain),
        no_new_values(chain, Seq::empty()),
{
    assert forall|i: int| 0 <= i < chain.len() implies exists|j: int|
        0 <= j < chain.len() && (#[trigger] chain[j]).value == (
        #[trigger] chain[i]).value by {
        assert(chain[i].value == chain[i].value);
    }
}

proof fn lemma_swept_values<T>(slot: SlotView<T>, watermark: u64)
    ensures
        no_new_values(slot.chain, slot.swept(watermark).chain),
{
    lemma_no_new_values_refl(slot.chain);
    lemma_dead(slot.chain, watermark);
    let d = dead(slot.chain, watermark) as int;
    let after = slot.swept(watermark).chain;
    if slot.lock == 0 {
        assert forall|i: int| 0 <= i < after.len() implies exists|j: int|
            0 <= j < slot.chain.len() && (#[trigger] slot.chain[j]).value == (
            #[trigger] after[i]).value by {
            assert(slot.chain[i + d].value == after[i].value);
        }
    }
}

proof fn lemma_index_below<T: Versioned>(
    rows: Seq<(IndexKey, Version<T>)>,
    index: Ordered<Ordered<()>>,
    entry: Ordered<()>,
    i: int,
    p: int,
)
    requires
        0 <= i < index.items@.len(),
        rows_before(rows, index, i, p),
    ensures
        rows_before(rows, index, i + 1, p),
        rows_below(rows, entry, index.items@[i].0@, 0, p),
{
}

proof fn lemma_row_added<T: Versioned>(
    before: Seq<(IndexKey, Version<T>)>,
    after: Seq<(IndexKey, Version<T>)>,
    index: Ordered<Ordered<()>>,
    entry: Ordered<()>,
    i: int,
    j: int,
    p: int,
)
    requires
        0 <= i < index.items@.len(),
        0 <= j < entry.items@.len(),
        index.wf(),
        entry.wf(),
        in_index_order(before, p),
        rows_before(before, index, i + 1, p),
        rows_below(before, entry, index.items@[i].0@, j, p),
        after.len() == before.len() + 1,
        before == after.drop_last(),
        after.last().0@ == entry.items@[j].0@,
        index_key_of(after.last().1, p) == index.items@[i].0@,
    ensures
        in_index_order(after, p),
        rows_before(after, index, i + 1, p),
        rows_below(after, entry, index.items@[i].0@, j + 1, p),
        listed(after, entry.items@[j].0@),
        forall|k: Seq<u8>| listed(before, k) ==> #[trigger] listed(after, k),
{
    let n = before.len() as int;
    assert forall|a: int, b: int| 0 <= a < b < after.len() implies index_before(
        #[trigger] after[a],
        #[trigger] after[b],
        p,
    ) by {
        assert(after[a] == before[a]);
        if b < n {
            assert(after[b] == before[b]);
            assert(index_before(before[a], before[b], p));
        } else {
            assert(before[a] == after[a] && entry.items@[j] == entry.items@[j]);
        }
    }
    assert forall|a: int, b: int|
        #![trigger after[a], index.items@[b]]
        0 <= a < after.len() && i + 1 <= b < index.items@.len() implies lex_lt(
        index_key_of(after[a].1, p),
        index.items@[b].0@,
    ) by {
        if a < n {
            assert(after[a] == before[a]);
        } else {
            assert(lex_lt(index.items@[i].0@, index.items@[b].0@));
        }
    }
    assert forall|a: int, b: int|
        #![trigger after[a], entry.items@[b]]
        0 <= a < after.len() && j + 1 <= b < entry.items@.len() implies lex_lt(
        index_key_of(after[a].1, p),
        index.items@[i].0@,
    ) || (index_key_of(after[a].1, p) == index.items@[i].0@ && lex_lt(
        after[a].0@,
        entry.items@[b].0@,
    )) by {
        if a < n {
            assert(after[a] == before[a]);
        } else {
            assert(lex_lt(entry.items@[j].0@, entry.items@[b].0@));
        }
    }
    assert(after[n].0@ == entry.items@[j].0@);
    assert forall|k: Seq<u8>| listed(before, k) implies #[trigger] listed(after, k) by {
        let a = choose|a: int| 0 <= a < before.len() && (#[trigger] before[a]).0@ == k;
        assert(after[a].0@ == k);
    }
}

proof fn lemma_same_chains<T: Versioned>(
    before: Table<T>,
    after: Map<Seq<u8>, SlotView<T>>,
    key: Seq<u8>,
)
    requires
        after == before.slots@.insert(key, after[key]),
        after[key].chain == before.slots@[key].chain,
    ensures
        forall|k: Seq<u8>| #[trigger] no_new_values(before.slots@[k].chain, after[k].chain),
{
    assert forall|k: Seq<u8>| #[trigger] no_new_values(before.slots@[k].chain, after[k].chain) by {
        lemma_no_new_values_refl(before.slots@[k].chain);
        assert(after[k].chain == before.slots@[k].chain);
    }
}

} // verus!
