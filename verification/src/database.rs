//! The handle everything hangs off.

use std::collections::HashMap;
use std::sync::Arc;

use vstd::multiset::Multiset;
use vstd::prelude::*;

use crate::error::Result;
use crate::filter::Filter;
use crate::gc::GcStats;
use crate::isolation::{rules_of, IsolationLevel, Rules, Snapshot};
use crate::keep::{lemma_begin_inv, lemma_compacted_inv, lemma_fresh, lemma_register_inv};
use crate::oracle::{nth_id, total, Oracle, OracleConfig, OracleView, IDS_PER_SHARD, SHARDS};
use crate::order::same_text;
use crate::ordered::Ordered;
use crate::schema::{Index, IndexDesc, IndexKey, RecordType, TableId, TableRef};
use crate::slot::SlotView;
use crate::slotmap::saturated;
use crate::ssi::{TxnState, TxnTable};
use crate::state::{kept_in, DbView, ReadView, ScopeView, TxnView};
use crate::table::{Table, TableView};
use crate::time::{Timestamp, FOREVER};
use crate::versioned::Versioned;

pub mod commit;
pub mod transaction;

use crate::database::transaction::Transaction;

verus! {

broadcast use vstd::std_specs::hash::group_hash_axioms;

/// Configuration for a [`Database`].
///
/// There is no directory to put data in: the engine is in-memory by design.
#[derive(Debug)]
pub struct Config {
    /// Timestamp oracle tuning.
    pub oracle: OracleConfig,
}

impl Default for Config {
    fn default() -> (c: Self)
        ensures
            c.oracle == OracleConfig::Centralised,
    {
        Config { oracle: OracleConfig::default() }
    }
}

impl Config {
    /// The default configuration.
    ///
    /// Named rather than relying on `Default` so that call sites say plainly
    /// what this database is.
    pub fn in_memory() -> (c: Self)
        ensures
            c.oracle == OracleConfig::Centralised,
    {
        Config::default()
    }
}

/// What a recorded read covered.
#[verifier::reject_recursive_types(T)]
pub enum Scope<T: Versioned> {
    /// One record, by its key.
    Row(IndexKey),
    /// Whatever passes a filter.
    Rows(Arc<Filter<T::Predicate>>),
}

impl<T: Versioned> View for Scope<T> {
    type V = ScopeView<T>;

    open spec fn view(&self) -> ScopeView<T> {
        match self {
            Scope::Row(k) => ScopeView::Row(k@),
            Scope::Rows(f) => ScopeView::Rows(*f),
        }
    }
}

/// One read, recorded for revalidation at commit.
#[verifier::reject_recursive_types(T)]
pub struct Read<T: Versioned> {
    pub table: usize,
    pub scope: Scope<T>,
    /// When the version of each record in the result began.
    pub observed: Ordered<u64>,
}

impl<T: Versioned> View for Read<T> {
    type V = ReadView<T>;

    open spec fn view(&self) -> ReadView<T> {
        ReadView { table: self.table as int, scope: self.scope@, observed: self.observed@ }
    }
}

/// What the database keeps of one running transaction.
#[verifier::reject_recursive_types(T)]
pub struct TxnLocal<T: Versioned> {
    pub snapshot: Timestamp,
    pub rules: Rules,
    /// Empty, and never pushed to, unless the level validates reads.
    pub reads: Vec<Read<T>>,
    /// The slots written but not yet committed, each once.
    pub writes: Vec<(usize, IndexKey)>,
    /// The unique index keys claimed.
    pub claims: Vec<(usize, usize, IndexKey)>,
}

impl<T: Versioned> View for TxnLocal<T> {
    type V = TxnView<T>;

    open spec fn view(&self) -> TxnView<T> {
        TxnView {
            snapshot: self.snapshot.0,
            rules: self.rules,
            reads: self.reads@.map_values(|r: Read<T>| r@),
        }
    }
}

/// Whether `writes` lists this slot.
pub open spec fn lists_write(writes: Seq<(usize, IndexKey)>, t: int, k: Seq<u8>) -> bool {
    exists|i: int| 0 <= i < writes.len() && (#[trigger] writes[i]).0 == t && writes[i].1@ == k
}

/// Whether `claims` lists this index key.
pub open spec fn lists_claim(
    claims: Seq<(usize, usize, IndexKey)>,
    t: int,
    p: int,
    ik: Seq<u8>,
) -> bool {
    exists|i: int|
        0 <= i < claims.len() && (#[trigger] claims[i]).0 == t && claims[i].1 == p
            && claims[i].2@ == ik
}

/// No slot is listed twice.
pub open spec fn listed_once(writes: Seq<(usize, IndexKey)>) -> bool {
    forall|i: int, j: int|
        0 <= i < j < writes.len() ==> (#[trigger] writes[i]).0 != (#[trigger] writes[j]).0
            || writes[i].1@ != writes[j].1@
}

/// The lists of `id` name exactly the slots and the keys that it holds.
pub open spec fn linked<T: Versioned>(
    tables: Seq<TableView<T>>,
    id: u64,
    local: TxnLocal<T>,
) -> bool {
    &&& forall|t: int, k: Seq<u8>| #[trigger]
        lists_write(local.writes@, t, k) <==> 0 <= t < tables.len() && tables[t].slots[k].lock
            == id
    &&& listed_once(local.writes@)
    &&& forall|t: int, p: int, ik: Seq<u8>| #[trigger]
        lists_claim(local.claims@, t, p, ik) <==> 0 <= t < tables.len() && 0 <= p
            < tables[t].claims.len() && tables[t].holds_claim(p, ik, id)
    &&& forall|i: int| 0 <= i < local.reads@.len() ==> (#[trigger] local.reads@[i]).observed.wf()
}

/// Another transaction's step does not touch what `id` holds.
pub proof fn lemma_still_linked<T: Versioned>(
    before: Seq<TableView<T>>,
    after: Seq<TableView<T>>,
    id: u64,
    local: TxnLocal<T>,
)
    requires
        linked(before, id, local),
        before.len() <= after.len(),
        forall|t: int, k: Seq<u8>|
            #![trigger after[t].slots[k]]
            0 <= t < before.len() ==> (after[t].slots[k].lock == id <==> before[t].slots[k].lock
                == id),
        forall|t: int, k: Seq<u8>|
            #![trigger after[t].slots[k]]
            before.len() <= t < after.len() ==> after[t].slots[k].lock != id,
        forall|t: int|
            #![trigger after[t].claims]
            0 <= t < before.len() ==> after[t].claims.len() == before[t].claims.len(),
        forall|t: int, p: int, ik: Seq<u8>|
            #![trigger after[t].holds_claim(p, ik, id)]
            0 <= t < before.len() && 0 <= p < before[t].claims.len() ==> (after[t].holds_claim(
                p,
                ik,
                id,
            ) <==> before[t].holds_claim(p, ik, id)),
        forall|t: int, p: int, ik: Seq<u8>|
            #![trigger after[t].holds_claim(p, ik, id)]
            before.len() <= t < after.len() && 0 <= p < after[t].claims.len()
                ==> !after[t].holds_claim(p, ik, id),
    ensures
        linked(after, id, local),
{
    assert forall|t: int, k: Seq<u8>| #[trigger]
        lists_write(local.writes@, t, k) <==> 0 <= t < after.len() && after[t].slots[k].lock
            == id by {
        let x = after[t].slots[k];
    }
    assert forall|t: int, p: int, ik: Seq<u8>| #[trigger]
        lists_claim(local.claims@, t, p, ik) <==> 0 <= t < after.len() && 0 <= p
            < after[t].claims.len() && after[t].holds_claim(p, ik, id) by {
        let x = after[t].claims;
        let y = after[t].holds_claim(p, ik, id);
    }
}

/// The handle everything hangs off: the clock, the tables, and what is kept of
/// the transactions that are running.
///
/// `T` is what the database stores. A database of several kinds of records
/// stores an enum of them.
#[verifier::reject_recursive_types(T)]
pub struct Database<T: Versioned> {
    oracle: Oracle,
    tables: Vec<Table<T>>,
    txns: HashMap<u64, TxnLocal<T>>,
    states: TxnTable,
    gc_hint: u64,
}

impl<T: Versioned> View for Database<T> {
    type V = DbView<T>;

    closed spec fn view(&self) -> DbView<T> {
        DbView {
            clock: self.oracle@,
            tables: self.tables@.map_values(|t: Table<T>| t@),
            txns: self.txns@.map_values(|l: TxnLocal<T>| l@),
            states: self.states@,
            gc_hint: self.gc_hint,
        }
    }
}

impl<T: Versioned> Database<T> {
    /// The pieces are in order, and the lists of every running transaction are
    /// those of what it holds.
    pub closed spec fn wf(&self) -> bool {
        &&& self.pieces_wf()
        &&& self@.inv()
        &&& forall|id: u64| #[trigger]
            self.txns@.contains_key(id) ==> linked(self@.tables, id, self.txns@[id])
    }

    spec fn pieces_wf(&self) -> bool {
        &&& self.oracle.wf()
        &&& self.states.wf()
        &&& forall|t: int| 0 <= t < self.tables@.len() ==> (#[trigger] self.tables@[t]).wf()
    }

    pub proof fn lemma_wf(&self)
        requires
            self.wf(),
        ensures
            self@.inv(),
    {
    }

    /// There is a record of finitely many keys.
    pub proof fn lemma_kept(&self)
        requires
            self.wf(),
        ensures
            forall|t: int|
                0 <= t < self@.tables.len() ==> (#[trigger] self@.tables[t]).kept.finite(),
    {
        assert forall|t: int| 0 <= t < self@.tables.len() implies (
        #[trigger] self@.tables[t]).kept.finite() by {
            assert(self.tables@[t].wf());
            self.tables@[t].lemma_kept();
        }
    }

    /// Create an empty database.
    ///
    /// Nothing is read from disk and nothing will be written to it. Every table
    /// must be passed to [`Database::register`] before use.
    ///
    /// Currently infallible; the `Result` is here so that configuration that can
    /// fail may be added without a breaking change.
    pub fn open(config: Config) -> (r: Result<Self>)
        ensures
            match r {
                Ok(db) => db.wf() && db@ == (DbView::<T> {
                    clock: OracleView {
                        config: config.oracle,
                        next: 1,
                        watermark: 0,
                        published: Set::empty(),
                        issued: Seq::new(SHARDS as nat, |i: int| 0u64),
                        active: Seq::new(SHARDS as nat, |i: int| Multiset::<u64>::empty()),
                    },
                    tables: Seq::empty(),
                    txns: Map::empty(),
                    states: Map::empty(),
                    gc_hint: 0,
                }),
                Err(_) => false,
            },
    {
        let db: Database<T> = Database {
            oracle: Oracle::new(config.oracle),
            tables: Vec::new(),
            txns: HashMap::new(),
            states: TxnTable::new(),
            gc_hint: 0,
        };
        proof {
            assert(db@.tables =~= Seq::empty());
            assert(db@.txns =~= Map::empty());
            db.oracle.lemma_wf();
            lemma_total_of_empty(SHARDS as nat);
            assert forall|s: int, ts: u64|
                #![trigger db@.clock.active[s].count(ts)]
                0 <= s < SHARDS implies db@.clock.active[s].count(ts) == crate::state::holders(
                db@.txns,
                s,
                ts,
            ).len() by {
                assert(crate::state::holders(db@.txns, s, ts) =~= Set::empty());
            }
        }
        Ok(db)
    }

    /// Register the table for records of one type: assign its [`TableId`] and
    /// build its indexes.
    ///
    /// Must happen before any transaction touches it. Registering a type twice is
    /// a no-op rather than an error, so a library that registers its own types
    /// defensively does not conflict with an application that did the same. Two
    /// types have two tables, also where those have the same name.
    pub fn register(
        &mut self,
        of: RecordType,
        name: &'static str,
        indexes: Vec<IndexDesc>,
    ) -> (r: Result<TableRef>)
        requires
            old(self).wf(),
            old(self)@.tables.len() < 65536 || old(self)@.has_table(of),
        ensures
            final(self).wf(),
            match r {
                Ok(table) => {
                    let t = table.id.0 as int;
                    &&& table.of == of
                    &&& if old(self)@.has_table(of) {
                        &&& final(self)@ == old(self)@
                        &&& t < old(self)@.tables.len() && old(self)@.tables[t].of == of
                        &&& table.name == old(self)@.tables[t].name
                        &&& forall|u: int| 0 <= u < t ==> (#[trigger] old(self)@.tables[u]).of
                            != of
                    } else {
                        &&& t == old(self)@.tables.len()
                        &&& table.name == name
                        &&& final(self)@ == (DbView {
                            tables: old(self)@.tables.push(
                                TableView {
                                    of,
                                    name,
                                    indexes: indexes@,
                                    slots: Map::total(|k: Seq<u8>| SlotView::<T>::empty()),
                                    claims: Seq::new(
                                        indexes@.len(),
                                        |i: int| Map::<Seq<u8>, u64>::empty(),
                                    ),
                                    locks: Seq::empty(),
                                    kept: Set::empty(),
                                },
                            ),
                            ..old(self)@
                        })
                    }
                },
                Err(_) => false,
            },
    {
        let mut t: usize = 0;
        while t < self.tables.len()
            invariant
                *self == *old(self),
                old(self).wf(),
                t <= self.tables@.len(),
                self@.tables.len() <= 65536,
                forall|u: int| 0 <= u < t ==> (#[trigger] self@.tables[u]).of != of,
            decreases self.tables@.len() - t,
        {
            assert(self@.tables[t as int] == self.tables@[t as int]@);
            if self.tables[t].of() == of {
                return Ok(TableRef { id: TableId(t as u16), of, name: self.tables[t].name() });
            }
            t = t + 1;
        }
        let table = Table::new(of, name, indexes);
        let ghost tv = table@;
        self.tables.push(table);
        proof {
            assert(self@.tables =~= old(self)@.tables.push(tv));
            assert(self@ =~= (DbView { tables: old(self)@.tables.push(tv), ..old(self)@ }));
            lemma_register_inv(old(self)@, tv);
            assert forall|id: u64| #[trigger] self.txns@.contains_key(id) implies linked(
                self@.tables,
                id,
                self.txns@[id],
            ) by {
                assert(old(self)@.txns.contains_key(id));
                assert(old(self)@.txn_ok(id));
                lemma_still_linked(old(self)@.tables, self@.tables, id, self.txns@[id]);
            }
        }
        Ok(TableRef { id: TableId(t as u16), of, name })
    }

    /// Whether this type is registered, or there is room for its table.
    pub fn can_register(&self, of: RecordType) -> (r: bool)
        ensures
            r == (self@.tables.len() < 65536 || self@.has_table(of)),
    {
        if self.tables.len() < 65536 {
            return true;
        }
        let mut t: usize = 0;
        while t < self.tables.len()
            invariant
                t <= self.tables@.len(),
                forall|u: int| 0 <= u < t ==> (#[trigger] self@.tables[u]).of != of,
            decreases self.tables@.len() - t,
        {
            assert(self@.tables[t as int] == self.tables@[t as int]@);
            if self.tables[t].of() == of {
                return true;
            }
            t = t + 1;
        }
        false
    }

    /// Whether slot `slot` of the oracle exists and has transaction ids left.
    pub fn can_begin_on(&self, slot: usize) -> (r: bool)
        requires
            self.wf(),
        ensures
            r == (slot < SHARDS && self@.clock.issued[slot as int] < IDS_PER_SHARD),
    {
        self.oracle.has_ids(slot)
    }

    /// Whether there are commit timestamps left.
    pub fn can_commit(&self) -> (r: bool)
        ensures
            r == (self@.clock.next < FOREVER),
    {
        self.oracle.has_timestamps()
    }

    /// Whether `index` is a handle to one of the indexes of `table`. A table that
    /// is not registered has none to mistake it for.
    pub fn has_index<K>(&self, table: TableRef, index: Index<T, K>) -> (r: bool)
        ensures
            r == self@.has_index(table, index),
    {
        let t: usize = table.id.0 as usize;
        if t >= self.tables.len() {
            return true;
        }
        assert(self@.tables[t as int] == self.tables@[t as int]@);
        if self.tables[t].of() != table.of {
            return true;
        }
        let indexes = self.tables[t].indexes();
        index.position < indexes.len() && same_text(indexes[index.position].name, index.name)
    }

    /// Begin a transaction at the default isolation level, snapshot isolation.
    pub fn begin(&mut self) -> (tx: Transaction<Snapshot>)
        requires
            old(self).wf(),
            old(self)@.clock.issued[0] < IDS_PER_SHARD,
        ensures
            final(self).wf(),
            tx.who() == nth_id(0, old(self)@.clock.issued[0] as int),
            tx.reads_at() == old(self)@.clock.watermark,
            final(self)@ == old(self)@.after_begin(0, rules_of::<Snapshot>()),
    {
        self.begin_with::<Snapshot>()
    }

    /// Begin a transaction at a chosen isolation level.
    ///
    /// This hands back a transaction that is to be committed or aborted.
    pub fn begin_with<I: IsolationLevel>(&mut self) -> (tx: Transaction<I>)
        requires
            old(self).wf(),
            old(self)@.clock.issued[0] < IDS_PER_SHARD,
        ensures
            final(self).wf(),
            tx.who() == nth_id(0, old(self)@.clock.issued[0] as int),
            tx.reads_at() == old(self)@.clock.watermark,
            final(self)@ == old(self)@.after_begin(0, rules_of::<I>()),
    {
        self.begin_on::<I>(0)
    }

    /// Begin a transaction whose id comes from the given slot of the oracle.
    /// Threads that stick to slots of their own do not contend for ids.
    pub fn begin_on<I: IsolationLevel>(&mut self, slot: usize) -> (tx: Transaction<I>)
        requires
            old(self).wf(),
            slot < SHARDS,
            old(self)@.clock.issued[slot as int] < IDS_PER_SHARD,
        ensures
            final(self).wf(),
            tx.who() == nth_id(slot as int, old(self)@.clock.issued[slot as int] as int),
            tx.reads_at() == old(self)@.clock.watermark,
            final(self)@ == old(self)@.after_begin(slot as int, rules_of::<I>()),
    {
        proof {
            lemma_fresh(self@, slot as int);
            lemma_begin_inv(self@, slot as int, rules_of::<I>());
        }
        let rules = Rules::of::<I>();
        let id = self.oracle.next_txn_id(slot);
        let snapshot = self.oracle.begin_snapshot(id);
        let local: TxnLocal<T> = TxnLocal {
            snapshot,
            rules,
            reads: Vec::new(),
            writes: Vec::new(),
            claims: Vec::new(),
        };
        let ghost l0 = local;
        self.txns.insert(id.0, local);
        if rules.validates_reads {
            self.states.put(TxnState::new(id, snapshot));
        }
        proof {
            let b = old(self)@.after_begin(slot as int, rules);
            assert(l0@.reads =~= Seq::empty());
            assert(self@.txns =~= b.txns);
            assert(self@.tables =~= b.tables);
            assert(self@ =~= b);
            assert forall|x: u64| #[trigger] self.txns@.contains_key(x) implies linked(
                self@.tables,
                x,
                self.txns@[x],
            ) by {
                if x == id.0 {
                    assert forall|t: int, k: Seq<u8>| #[trigger]
                        lists_write(l0.writes@, t, k) <==> 0 <= t < self@.tables.len()
                            && self@.tables[t].slots[k].lock == x by {
                        if 0 <= t < self@.tables.len() && self@.tables[t].slots[k].lock == x {
                            assert(old(self)@.tables[t].slots[k].lock == x);
                            assert(old(self)@.live(x));
                        }
                    }
                    assert forall|t: int, p: int, ik: Seq<u8>| #[trigger]
                        lists_claim(l0.claims@, t, p, ik) <==> 0 <= t < self@.tables.len() && 0
                            <= p < self@.tables[t].claims.len() && self@.tables[t].holds_claim(
                            p,
                            ik,
                            x,
                        ) by {
                        if 0 <= t < self@.tables.len() && 0 <= p < self@.tables[t].claims.len()
                            && self@.tables[t].holds_claim(p, ik, x) {
                            assert(old(self)@.tables[t].claims[p].contains_key(ik));
                            assert(old(self)@.live(x));
                        }
                    }
                } else {
                    assert(old(self).txns@.contains_key(x));
                    lemma_still_linked(old(self)@.tables, self@.tables, x, self.txns@[x]);
                }
            }
        }
        Transaction::at(id, snapshot)
    }

    /// Snapshot of engine statistics.
    pub fn stats(&self) -> (s: GcStats)
        requires
            self.wf(),
        ensures
            s.watermark.0 == crate::state::gc_watermark(self@.clock),
            s.active_transactions == self@.txns.dom().len(),
    {
        let n: usize = self.txns.len();
        assert(self.txns@.dom() =~= self@.txns.dom());
        let watermark = self.oracle.gc_watermark();
        proof {
            crate::state::lemma_gc_watermark(self@.clock, watermark.0);
            assert(total(self@.clock.active) == self@.txns.dom().len());
        }
        GcStats { watermark, active_transactions: self.oracle.active_count() }
    }
}

impl<T: Versioned> Database<T> {
    /// Give back the slots that hold no version: those of keys that were
    /// deleted and have been pruned, and of keys that were only ever asked for.
    /// Returns how many there were.
    ///
    /// Only for a database that no transaction is using, since a running one may
    /// count on finding its read locks again.
    pub fn compact(&mut self) -> (freed: usize)
        requires
            old(self).wf(),
            old(self)@.txns.dom().len() == 0,
        ensures
            final(self).wf(),
            final(self)@ == old(self)@.compacted(),
            freed == saturated(kept_in(old(self)@.tables) - kept_in(final(self)@.tables)),
    {
        let ghost before = *self;
        let mut freed: usize = 0;
        let mut t: usize = 0;
        proof {
            assert(self@.txns.dom() =~= Set::<u64>::empty());
            lemma_compacted_inv(self@);
            assert(self@.tables.take(0) =~= Seq::<TableView<T>>::empty());
        }
        while t < self.tables.len()
            invariant
                t <= self.tables@.len(),
                *self == (Database { tables: self.tables, ..before }),
                before.pieces_wf(),
                self.tables@.len() == before.tables@.len(),
                forall|u: int| 0 <= u < self.tables@.len() ==> (#[trigger] self.tables@[u]).wf(),
                forall|u: int|
                    0 <= u < t ==> (#[trigger] self.tables@[u])@ == before.tables@[u]@.compacted(),
                forall|u: int|
                    t <= u < self.tables@.len() ==> #[trigger] self.tables@[u]
                        == before.tables@[u],
                kept_in(self@.tables.take(t as int)) <= kept_in(before@.tables.take(t as int)),
                freed == saturated(
                    kept_in(before@.tables.take(t as int)) - kept_in(self@.tables.take(t as int)),
                ),
            decreases self.tables@.len() - t,
        {
            let ghost mid = self@.tables;
            assert(self.tables@[t as int] == before.tables@[t as int]);
            proof {
                self.tables@[t as int].lemma_kept();
            }
            let n: usize = self.tables[t].compact();
            freed = freed.saturating_add(n);
            proof {
                assert(self@.tables.take(t + 1).drop_last() =~= mid.take(t as int));
                assert(before@.tables.take(t + 1).drop_last() =~= before@.tables.take(t as int));
                let a = before.tables@[t as int]@.kept;
                let b = self.tables@[t as int]@.kept;
                vstd::set_lib::lemma_len_subset(b, a);
            }
            t = t + 1;
        }
        proof {
            let b = before@.compacted();
            assert(self@.tables.take(t as int) =~= self@.tables);
            assert(before@.tables.take(t as int) =~= before@.tables);
            assert(self@.tables =~= b.tables);
            assert(self@ =~= b);
            assert forall|id: u64| !self.txns@.contains_key(id) by {
                assert(!self@.txns.dom().contains(id));
            }
        }
        freed
    }
}

/// Shards in which nobody is active hold nothing.
proof fn lemma_total_of_empty(n: nat)
    ensures
        total(Seq::new(n, |i: int| Multiset::<u64>::empty())) == 0,
    decreases n,
{
    let s = Seq::new(n, |i: int| Multiset::<u64>::empty());
    if n > 0 {
        lemma_total_of_empty((n - 1) as nat);
        assert(s.drop_last() =~= Seq::new((n - 1) as nat, |i: int| Multiset::<u64>::empty()));
    }
}

} // verus!
