//! The state of a database as a mathematical value, and what every operation
//! makes of it.

use std::sync::Arc;

use vstd::prelude::*;

use crate::error::Error;
use crate::filter::Filter;
use crate::isolation::Rules;
use crate::oracle::{nth_id, shard_of, total, OracleView, SHARDS};
use crate::order::lex_lt;
use crate::schema::{Index, RecordType, TableRef};
use crate::slot::{live_value, read_at, settled, SlotView, Version};
use crate::ssi::{expired, live_states, with_incoming, with_outgoing, TxnState};
use crate::table::{
    began, begins, installed, scanned, taken, touched, watched, writer_at, TableView,
};
use crate::time::{Timestamp, TxnId, IN_FLIGHT, NOBODY};
use crate::versioned::Versioned;

verus! {

/// How many commits pass between refreshes of the reclamation hint.
pub const GC_HINT_INTERVAL: u64 = 128;

/// How many commits pass between sweeps of one shard of every table.
pub const SWEEP_INTERVAL: u64 = 4096;

/// What a read covered.
#[verifier::ext_equal]
#[verifier::reject_recursive_types(T)]
pub enum ScopeView<T: Versioned> {
    /// One record, by its key.
    Row(Seq<u8>),
    /// Whatever passes a filter.
    Rows(Arc<Filter<T::Predicate>>),
}

/// One read that is checked again at commit.
#[verifier::ext_equal]
#[verifier::reject_recursive_types(T)]
pub struct ReadView<T: Versioned> {
    pub table: int,
    pub scope: ScopeView<T>,
    /// When the version of each record in the result began.
    pub observed: Map<Seq<u8>, u64>,
}

/// A running transaction.
#[verifier::ext_equal]
#[verifier::reject_recursive_types(T)]
pub struct TxnView<T: Versioned> {
    pub snapshot: u64,
    pub rules: Rules,
    /// Empty unless the isolation level validates reads.
    pub reads: Seq<ReadView<T>>,
}

/// The state of a database.
#[verifier::ext_equal]
#[verifier::reject_recursive_types(T)]
pub struct DbView<T: Versioned> {
    pub clock: OracleView,
    pub tables: Seq<TableView<T>>,
    /// The transactions that are running.
    pub txns: Map<u64, TxnView<T>>,
    /// The conflict states of serializable transactions, running or finished.
    pub states: Map<u64, TxnState>,
    /// No running transaction's snapshot is older than this.
    pub gc_hint: u64,
}

/// A record as versions hold it.
pub open spec fn shared<T>(value: Option<T>) -> Option<Arc<T>> {
    match value {
        Some(x) => Some(Arc::new(x)),
        None => None,
    }
}

/// The record behind what a version holds.
pub open spec fn unshared<T>(value: Option<Arc<T>>) -> Option<T> {
    match value {
        Some(a) => Some(*a),
        None => None,
    }
}

/// Sharing a record does not change it.
pub proof fn lemma_shared<T>(value: Option<Arc<T>>)
    ensures
        shared(unshared(value)) == value,
{
}

/// What a read of `scope` finds at `now`, as nobody sees it: a reader's own
/// uncommitted writes are not part of it.
pub open spec fn seen<T: Versioned>(
    slots: Map<Seq<u8>, SlotView<T>>,
    scope: ScopeView<T>,
    now: u64,
) -> Map<Seq<u8>, u64> {
    match scope {
        ScopeView::Row(k) => match read_at(slots[k].chain, now, NOBODY) {
            Some(v) => Map::<Seq<u8>, u64>::empty().insert(k, v.begin),
            None => Map::empty(),
        },
        ScopeView::Rows(filter) => begins(scanned(slots, now, NOBODY, *filter)),
    }
}

/// Whether two results disagree about the record under `k`.
pub open spec fn differ(a: Map<Seq<u8>, u64>, b: Map<Seq<u8>, u64>, k: Seq<u8>) -> bool {
    a.contains_key(k) != b.contains_key(k) || (a.contains_key(k) && a[k] != b[k])
}

/// Where a record stands among those that a read finds changed: first those that
/// it finds now, then those that it no longer finds.
pub struct Place {
    pub gone: bool,
    /// The key by which an index orders the record, for a read of an index.
    pub by: Seq<u8>,
    pub key: Seq<u8>,
}

/// Whether `a` comes before `b`.
pub open spec fn sooner(a: Place, b: Place) -> bool {
    if a.gone != b.gone {
        b.gone
    } else if a.by != b.by {
        lex_lt(a.by, b.by)
    } else {
        lex_lt(a.key, b.key)
    }
}

/// The key by which a read of `scope` orders the record in a slot at `now`.
pub open spec fn order_key<T: Versioned>(
    slot: SlotView<T>,
    scope: ScopeView<T>,
    now: u64,
) -> Seq<u8> {
    match scope {
        ScopeView::Row(_) => Seq::empty(),
        ScopeView::Rows(filter) => match *filter {
            Filter::Range { position, .. } => match live_value(
                read_at(slot.chain, now, NOBODY),
            ) {
                Some(x) => x.spec_index_key(position as int),
                None => Seq::empty(),
            },
            _ => Seq::empty(),
        },
    }
}

/// The place of the record under `k` among the changes to a read of `scope` that
/// was made at `since` and finds `current` at `now`.
pub open spec fn place_of<T: Versioned>(
    slots: Map<Seq<u8>, SlotView<T>>,
    scope: ScopeView<T>,
    since: u64,
    now: u64,
    current: Map<Seq<u8>, u64>,
    k: Seq<u8>,
) -> Place {
    let gone = !current.contains_key(k);
    Place {
        gone,
        by: order_key(
            slots[k],
            scope,
            if gone {
                since
            } else {
                now
            },
        ),
        key: k,
    }
}

/// Whether a version of the record under `k` that began at `ts`, after `since`,
/// changes what a read of `scope` finds: it is of the record asked for, or it or
/// what it replaced is part of the result.
pub open spec fn missed<T: Versioned>(
    slots: Map<Seq<u8>, SlotView<T>>,
    scope: ScopeView<T>,
    k: Seq<u8>,
    since: u64,
    now: u64,
    ts: u64,
) -> bool {
    match scope {
        ScopeView::Row(j) => j == k && began(slots[k], since, now, ts),
        ScopeView::Rows(filter) => touched(slots[k], since, now, *filter, ts),
    }
}

/// Whether `w` is writing the record under `k`, and `r` has read it: the record
/// itself, or a predicate that one of the versions involved satisfies.
pub open spec fn overwrites<T: Versioned>(tv: TableView<T>, k: Seq<u8>, w: u64, r: u64) -> bool {
    tv.slots[k].lock == w && (tv.slots[k].readers.contains(r) || watched(tv, k, r))
}

/// The oldest snapshot a running transaction reads at, or the read watermark
/// when there is none.
pub open spec fn gc_watermark(clock: OracleView) -> u64 {
    choose|ts: u64| clock.is_gc_watermark(ts)
}

/// There is only one such timestamp.
pub proof fn lemma_gc_watermark(clock: OracleView, ts: u64)
    requires
        clock.is_gc_watermark(ts),
    ensures
        gc_watermark(clock) == ts,
{
    let other = gc_watermark(clock);
    assert(clock.is_gc_watermark(other));
}

/// The running transactions of one shard that read at `snapshot`.
pub open spec fn holders<T: Versioned>(
    txns: Map<u64, TxnView<T>>,
    shard: int,
    snapshot: u64,
) -> Set<u64> {
    txns.dom().filter(|id: u64| shard_of(id) == shard && txns[id].snapshot == snapshot)
}

/// Whether `id` has been handed out.
pub open spec fn was_issued(clock: OracleView, id: u64) -> bool {
    exists|slot: int, n: int|
        0 <= slot < SHARDS && 0 <= n < clock.issued[slot] && #[trigger] nth_id(slot, n) == id
}

/// The first reason why `id` may not write `x` under `k`: a unique index key
/// that another running transaction has claimed, or that another record holds.
pub open spec fn unique_conflict<T: Versioned>(
    tv: TableView<T>,
    id: u64,
    k: Seq<u8>,
    x: T,
    p: int,
) -> Option<Error>
    decreases tv.indexes.len() - p,
{
    if p < 0 || p >= tv.indexes.len() {
        None
    } else if !tv.indexes[p].unique {
        unique_conflict(tv, id, k, x, p + 1)
    } else {
        let ik = x.spec_index_key(p);
        if tv.claims[p].contains_key(ik) && tv.claims[p][ik] != id {
            Some(Error::WriteConflict { table: tv.name })
        } else if taken(tv.slots, p, ik, k, id) {
            Some(Error::DuplicateKey { table: tv.name, index: tv.indexes[p].name })
        } else {
            unique_conflict(tv, id, k, x, p + 1)
        }
    }
}

/// Whether a slot refuses `id` as its writer: another transaction is writing
/// it, or one has committed after `snapshot` and the first committer wins.
pub open spec fn slot_conflict<T>(
    slot: SlotView<T>,
    id: u64,
    snapshot: u64,
    first_committer_wins: bool,
) -> bool {
    ||| slot.lock != 0 && slot.lock != id
    ||| first_committer_wins && slot.chain.len() > 0 && snapshot < slot.chain.last().begin
        < IN_FLIGHT
}

/// How many records some tables keep, whether or not they hold a version.
pub open spec fn kept_in<T: Versioned>(tables: Seq<TableView<T>>) -> nat
    decreases tables.len(),
{
    if tables.len() == 0 {
        0
    } else {
        kept_in(tables.drop_last()) + tables.last().kept.len()
    }
}

impl<T: Versioned> DbView<T> {
    /// Whether `id` is running.
    pub open spec fn live(self, id: u64) -> bool {
        self.txns.contains_key(id)
    }

    /// Whether there is a table for records of this type.
    pub open spec fn has_table(self, of: RecordType) -> bool {
        exists|u: int| 0 <= u < self.tables.len() && (#[trigger] self.tables[u]).of == of
    }

    /// Whether `table` names one of this database's tables.
    pub open spec fn registered(self, table: TableRef) -> bool {
        table.id.0 < self.tables.len() && self.tables[table.id.0 as int].of == table.of
    }

    /// Whether `index` is a handle to one of the indexes of `table`, if that is
    /// registered.
    pub open spec fn has_index<K>(self, table: TableRef, index: Index<T, K>) -> bool {
        let indexes = self.tables[table.id.0 as int].indexes;
        self.registered(table) ==> index.position < indexes.len() && indexes[index.position as int].name@
            == index.name@
    }

    /// Why a statement of `id` on `table` cannot even start.
    pub open spec fn refused(self, id: u64, table: TableRef) -> Option<Error> {
        if !self.live(id) {
            Some(Error::Aborted)
        } else if !self.registered(table) {
            Some(Error::TableNotRegistered { table: table.name })
        } else {
            None
        }
    }

    /// The snapshot that a statement of `id` reads at.
    pub open spec fn statement_snapshot(self, id: u64) -> u64 {
        if self.txns[id].rules.refresh_snapshot_per_statement {
            self.clock.watermark
        } else {
            self.txns[id].snapshot
        }
    }

    /// The record under `k` of table `t` as a statement of `id` sees it.
    pub open spec fn record_at(self, id: u64, t: int, k: Seq<u8>) -> Option<T> {
        live_value(read_at(self.tables[t].slots[k].chain, self.statement_snapshot(id), id))
    }

    /// What a scan of table `t` by a statement of `id` finds.
    pub open spec fn rows_at(self, id: u64, t: int, filter: Filter<T::Predicate>) -> Map<
        Seq<u8>,
        Version<T>,
    > {
        scanned(self.tables[t].slots, self.statement_snapshot(id), id, filter)
    }

    pub open spec fn with_table(self, t: int, tv: TableView<T>) -> Self {
        DbView { tables: self.tables.update(t, tv), ..self }
    }

    /// The database once `id` has read `scope` of table `t`. Below the level
    /// that validates reads nothing is recorded.
    pub open spec fn after_read(self, id: u64, t: int, scope: ScopeView<T>) -> Self {
        if !self.txns[id].rules.validates_reads {
            self
        } else {
            let tv = self.tables[t];
            let read = ReadView {
                table: t,
                scope,
                observed: seen(tv.slots, scope, self.statement_snapshot(id)),
            };
            let txn = self.txns[id];
            DbView {
                tables: self.tables.update(
                    t,
                    match scope {
                        ScopeView::Row(k) => TableView {
                            slots: tv.slots.insert(k, tv.slots[k].with_reader(id)),
                            kept: tv.kept.insert(k),
                            ..tv
                        },
                        ScopeView::Rows(filter) => TableView {
                            locks: tv.locks.push((id, filter)),
                            ..tv
                        },
                    },
                ),
                txns: self.txns.insert(id, TxnView { reads: txn.reads.push(read), ..txn }),
                ..self
            }
        }
    }

    /// Why `id` may not write `value` under `k` of table `t`.
    pub open spec fn write_conflict(self, id: u64, t: int, k: Seq<u8>, value: Option<T>) -> Option<
        Error,
    > {
        let tv = self.tables[t];
        let unique = match value {
            Some(x) => unique_conflict(tv, id, k, x, 0),
            None => None,
        };
        if unique is Some {
            unique
        } else if slot_conflict(
            tv.slots[k],
            id,
            self.txns[id].snapshot,
            self.txns[id].rules.first_committer_wins,
        ) {
            Some(Error::WriteConflict { table: tv.name })
        } else {
            None
        }
    }

    /// The database once `id` has written `value` under `k` of table `t`, where
    /// no record stands for a delete.
    pub open spec fn after_write(self, id: u64, t: int, k: Seq<u8>, value: Option<T>) -> Self {
        let tv = self.tables[t];
        self.with_table(
            t,
            TableView {
                slots: tv.slots.insert(
                    k,
                    installed(tv.slots[k], id, shared(value), self.mark_of(id)),
                ),
                claims: match value {
                    Some(x) => tv.claims_for(id, x),
                    None => tv.claims,
                },
                kept: tv.kept.insert(k),
                ..tv
            },
        )
    }

    /// Why `id` may not insert `x` into table `t`.
    pub open spec fn insert_error(self, id: u64, t: int, x: T) -> Option<Error> {
        let k = x.spec_key();
        if self.record_at(id, t, k) is Some {
            Some(Error::DuplicateKey { table: self.tables[t].name, index: "primary_key" })
        } else {
            self.write_conflict(id, t, k, Some(x))
        }
    }

    /// Why `id` may not replace the record under `k` by `next`.
    pub open spec fn replace_error(self, id: u64, t: int, k: Seq<u8>, next: T) -> Option<Error> {
        if next.spec_key() != k {
            Some(Error::PrimaryKeyChanged { table: self.tables[t].name })
        } else {
            self.write_conflict(id, t, k, Some(next))
        }
    }

    /// Whether `id` has written anything.
    pub open spec fn wrote(self, id: u64) -> bool {
        exists|t: int|
            0 <= t < self.tables.len() && #[trigger] self.tables[t].written_by(id)
    }

    /// What a recorded read finds now.
    pub open spec fn seen_now(self, read: ReadView<T>) -> Map<Seq<u8>, u64> {
        seen(self.tables[read.table].slots, read.scope, self.clock.watermark)
    }

    /// Whether a read finds something else now than it did.
    pub open spec fn changed(self, read: ReadView<T>) -> bool {
        self.seen_now(read) != read.observed
    }

    /// Whether something `id` read has changed.
    pub open spec fn reads_changed(self, id: u64) -> bool {
        exists|i: int|
            0 <= i < self.txns[id].reads.len() && self.changed(#[trigger] self.txns[id].reads[i])
    }

    /// Whether `w` wrote what stands in place of what this read found under `k`.
    pub open spec fn replaced_at(self, read: ReadView<T>, k: Seq<u8>, w: u64) -> bool {
        differ(self.seen_now(read), read.observed, k) && writer_at(
            self.tables[read.table].slots[k],
            self.clock.watermark,
        ) == Some(TxnId(w))
    }

    /// Whether `w` wrote what stands in place of something this read found.
    pub open spec fn replaced_by(self, read: ReadView<T>, w: u64) -> bool {
        exists|k: Seq<u8>| #[trigger] self.replaced_at(read, k, w)
    }

    /// Whether `w` wrote something that this read, made at `since`, did not see,
    /// whether or not it has been overwritten in turn.
    pub open spec fn missed_by(self, read: ReadView<T>, since: u64, w: u64) -> bool {
        exists|k: Seq<u8>, ts: u64| #[trigger]
            missed(
                self.tables[read.table].slots,
                read.scope,
                k,
                since,
                self.clock.watermark,
                ts,
            ) && writer_at(self.tables[read.table].slots[k], ts) == Some(TxnId(w))
    }

    /// Whether `w` wrote something that made this read, made at `since`, change.
    pub open spec fn changed_by(self, read: ReadView<T>, since: u64, w: u64) -> bool {
        self.replaced_by(read, w) || self.missed_by(read, since, w)
    }

    /// The serializable transactions that changed what `id` read.
    pub open spec fn overwriters(self, id: u64) -> Set<u64> {
        Set::new(
            |w: u64|
                exists|i: int|
                    0 <= i < self.txns[id].reads.len() && self.changed_by(
                        #[trigger] self.txns[id].reads[i],
                        self.txns[id].snapshot,
                        w,
                    ),
        )
    }

    /// Where the record under `k` stands among those that this read, made at
    /// `since`, finds changed.
    pub open spec fn place_of(self, read: ReadView<T>, since: u64, k: Seq<u8>) -> Place {
        place_of(
            self.tables[read.table].slots,
            read.scope,
            since,
            self.clock.watermark,
            self.seen_now(read),
            k,
        )
    }

    /// Whether `id` comes upon the change to its read `i` under `j` before that
    /// to its read `m` under `k`.
    pub open spec fn earlier(self, id: u64, i: int, j: Seq<u8>, m: int, k: Seq<u8>) -> bool {
        let txn = self.txns[id];
        i < m || (i == m && sooner(
            self.place_of(txn.reads[i], txn.snapshot, j),
            self.place_of(txn.reads[m], txn.snapshot, k),
        ))
    }

    /// Whether `w` has committed with an outgoing conflict. One more conflict,
    /// an incoming one, makes it a pivot that can no longer abort.
    pub open spec fn beyond_abort(self, w: u64) -> bool {
        self.states.contains_key(w) && self.states[w].out_conflict && self.states[w].committed_at
            != 0
    }

    /// Whether `id` comes upon no such transaction before the change to its read
    /// `i` under `k`.
    pub open spec fn comes_upon(self, id: u64, i: int, k: Seq<u8>) -> bool {
        forall|m: int, j: Seq<u8>, w: u64|
            0 <= m < self.txns[id].reads.len() && #[trigger] self.replaced_at(
                self.txns[id].reads[m],
                j,
                w,
            ) && self.beyond_abort(w) ==> !self.earlier(id, m, j, i, k)
    }

    /// The transactions on which an incoming conflict is recorded for `id`. The
    /// changes that it finds are gone through in order. Where one was made by a
    /// transaction that can no longer abort, that is the last; otherwise those
    /// follow whose writes have been overwritten in turn.
    pub open spec fn marked(self, id: u64) -> Set<u64> {
        let reads = self.txns[id].reads;
        if exists|i: int, k: Seq<u8>, w: u64|
            0 <= i < reads.len() && #[trigger] self.replaced_at(reads[i], k, w)
                && self.beyond_abort(w) {
            Set::new(
                |w: u64|
                    exists|i: int, k: Seq<u8>|
                        0 <= i < reads.len() && #[trigger] self.replaced_at(reads[i], k, w)
                            && self.comes_upon(id, i, k),
            )
        } else {
            self.overwriters(id)
        }
    }

    /// The conflict states once the changes to `id`'s reads are recorded on both
    /// sides: an outgoing conflict on `id`, an incoming one on the others.
    pub open spec fn states_outgoing(self, id: u64) -> Map<u64, TxnState> {
        if self.reads_changed(id) {
            with_incoming(
                self.states.insert(id, TxnState { out_conflict: true, ..self.states[id] }),
                self.marked(id),
            )
        } else {
            self.states
        }
    }

    /// Whether recording the changes to `id`'s reads makes a pivot of a
    /// transaction that has committed: the cycle runs through one that can no
    /// longer abort.
    pub open spec fn past_saving(self, id: u64) -> bool {
        self.reads_changed(id) && exists|w: u64| #[trigger]
            self.overwriters(id).contains(w) && self.beyond_abort(w)
    }

    /// Whether `r` read what `id` has overwritten in table `t`: one of the
    /// records, or a predicate that one of the versions involved satisfies.
    pub open spec fn read_under(self, id: u64, t: int, r: u64) -> bool {
        exists|k: Seq<u8>| #[trigger] overwrites(self.tables[t], k, id, r)
    }

    /// The other transactions that read what `id` has overwritten and may still
    /// conflict with it.
    pub open spec fn overwritten_readers(self, id: u64, states: Map<u64, TxnState>) -> Set<u64> {
        Set::new(
            |r: u64|
                r != id && !expired(states, r, gc_watermark(self.clock)) && exists|t: int|
                    0 <= t < self.tables.len() && #[trigger] self.read_under(id, t, r),
        )
    }

    /// The tables once the read locks on what `id` wrote are purged.
    pub open spec fn tables_purged(self, id: u64, states: Map<u64, TxnState>) -> Seq<
        TableView<T>,
    > {
        self.tables.map_values(
            |tv: TableView<T>| tv.purged(id, states, gc_watermark(self.clock)),
        )
    }

    /// What looking for conflicts of `id` leaves behind, and whether `id` may
    /// commit.
    pub open spec fn detected(self, id: u64) -> (Self, bool) {
        let states = self.states_outgoing(id);
        if self.past_saving(id) || states[id].pivot() {
            (DbView { states, ..self }, false)
        } else if !states[id].out_conflict {
            (DbView { states, ..self }, true)
        } else {
            let readers = self.overwritten_readers(id, states);
            let marked = with_outgoing(states, readers);
            let after = if readers.is_empty() {
                marked
            } else {
                marked.insert(id, TxnState { in_conflict: true, ..marked[id] })
            };
            (
                DbView { states: after, tables: self.tables_purged(id, states), ..self },
                !after[id].pivot(),
            )
        }
    }

    /// The conflict states once `id` has finished, at `ts` or, where that is 0,
    /// without effect.
    pub open spec fn states_after(self, id: u64, ts: u64) -> Map<u64, TxnState> {
        if !self.txns[id].rules.validates_reads {
            self.states
        } else if ts == 0 {
            self.states.insert(id, TxnState { aborted: true, ..self.states[id] })
        } else {
            self.states.insert(id, TxnState { committed_at: ts, ..self.states[id] })
        }
    }

    /// The clock once `id` no longer needs its snapshot.
    pub open spec fn clock_without(self, id: u64) -> OracleView {
        OracleView {
            active: self.clock.active.update(
                shard_of(id),
                self.clock.active[shard_of(id)].remove(self.txns[id].snapshot),
            ),
            ..self.clock
        }
    }

    /// The database once `id` has committed, before any tidying.
    pub open spec fn stamped(self, id: u64) -> Self {
        let ts = self.clock.next;
        DbView {
            clock: OracleView {
                next: (ts + 1) as u64,
                watermark: ts,
                ..self.clock_without(id)
            },
            tables: self.tables.map_values(
                |tv: TableView<T>| tv.committed(id, ts, self.gc_hint),
            ),
            txns: self.txns.remove(id),
            states: self.states_after(id, ts),
            gc_hint: self.gc_hint,
        }
    }

    /// Every so many commits the reclamation hint is refreshed, and with it the
    /// states that no longer matter are dropped.
    pub open spec fn refreshed(self) -> Self {
        if self.clock.watermark % GC_HINT_INTERVAL == 0 {
            DbView {
                gc_hint: gc_watermark(self.clock),
                states: live_states(self.states, gc_watermark(self.clock)),
                ..self
            }
        } else {
            self
        }
    }

    /// Every so many commits one shard of every table is swept, so that records
    /// nobody writes any more are reclaimed too.
    pub open spec fn swept(self) -> Self {
        if self.clock.watermark % SWEEP_INTERVAL == 0 {
            DbView {
                tables: self.tables.map_values(
                    |tv: TableView<T>|
                        tv.swept((self.clock.watermark / SWEEP_INTERVAL) as int, self.gc_hint),
                ),
                ..self
            }
        } else {
            self
        }
    }

    /// The database once `id` has committed.
    pub open spec fn committed(self, id: u64) -> Self {
        self.stamped(id).refreshed().swept()
    }

    /// The database once `id` has aborted.
    pub open spec fn rolled_back(self, id: u64) -> Self {
        DbView {
            clock: self.clock_without(id),
            tables: self.tables.map_values(|tv: TableView<T>| tv.aborted(id)),
            txns: self.txns.remove(id),
            states: self.states_after(id, 0),
            gc_hint: self.gc_hint,
        }
    }

    /// Whether committing `id` takes looking for conflicts: it validates its
    /// reads and wrote something.
    pub open spec fn needs_validation(self, id: u64) -> bool {
        self.txns[id].rules.validates_reads && self.wrote(id)
    }

    /// Why `id` may not commit.
    pub open spec fn commit_error(self, id: u64) -> Option<Error> {
        if !self.live(id) {
            Some(Error::Aborted)
        } else if self.needs_validation(id) && !self.detected(id).1 {
            Some(Error::SerializationFailure)
        } else {
            None
        }
    }

    /// The database once `id` has tried to commit.
    pub open spec fn after_commit(self, id: u64) -> Self {
        if !self.live(id) {
            self
        } else if !self.needs_validation(id) {
            self.committed(id)
        } else if self.detected(id).1 {
            self.detected(id).0.committed(id)
        } else {
            self.detected(id).0.rolled_back(id)
        }
    }

    /// The database once `id`, if it is running, has been aborted.
    pub open spec fn after_abort(self, id: u64) -> Self {
        if self.live(id) {
            self.rolled_back(id)
        } else {
            self
        }
    }

    /// The database once a transaction has begun under the next id of `slot`.
    pub open spec fn after_begin(self, slot: int, rules: Rules) -> Self {
        let id = nth_id(slot, self.clock.issued[slot] as int) as u64;
        let snapshot = self.clock.watermark;
        DbView {
            clock: OracleView {
                issued: self.clock.issued.update(slot, (self.clock.issued[slot] + 1) as u64),
                active: self.clock.active.update(
                    shard_of(id),
                    self.clock.active[shard_of(id)].insert(snapshot),
                ),
                ..self.clock
            },
            txns: self.txns.insert(id, TxnView { snapshot, rules, reads: Seq::empty() }),
            states: if rules.validates_reads {
                self.states.insert(
                    id,
                    TxnState {
                        id: TxnId(id),
                        snapshot: Timestamp(snapshot),
                        out_conflict: false,
                        in_conflict: false,
                        committed_at: 0,
                        aborted: false,
                    },
                )
            } else {
                self.states
            },
            ..self
        }
    }

    /// The database once empty slots have been given back.
    pub open spec fn compacted(self) -> Self {
        DbView { tables: self.tables.map_values(|tv: TableView<T>| tv.compacted()), ..self }
    }

    // --- what holds between statements -------------------------------------

    /// Commits are installed one at a time, so the read watermark is never
    /// behind.
    pub open spec fn clock_ok(self) -> bool {
        &&& self.clock.valid()
        &&& self.clock.next == self.clock.watermark + 1
    }

    /// Every running transaction holds its snapshot, and nobody else does.
    pub open spec fn active_ok(self) -> bool {
        &&& self.txns.dom().finite()
        &&& forall|s: int, ts: u64|
            #![trigger self.clock.active[s].count(ts)]
            0 <= s < SHARDS ==> self.clock.active[s].count(ts) == holders(self.txns, s, ts).len()
        &&& total(self.clock.active) == self.txns.dom().len()
    }

    /// The bookkeeping of one running transaction.
    pub open spec fn txn_ok(self, id: u64) -> bool {
        let txn = self.txns[id];
        &&& 0 < id < IN_FLIGHT
        &&& was_issued(self.clock, id)
        &&& self.gc_hint <= txn.snapshot <= self.clock.watermark
        &&& txn.rules.validates_reads ==> self.states.contains_key(id)
            && self.states[id].committed_at == 0 && !self.states[id].aborted
        &&& !txn.rules.validates_reads ==> txn.reads.len() == 0
        &&& forall|i: int|
            0 <= i < txn.reads.len() ==> self.read_ok(#[trigger] txn.reads[i])
    }

    /// A recorded read is of a table and an index that exist, and found nothing
    /// but what was committed.
    pub open spec fn read_ok(self, read: ReadView<T>) -> bool {
        &&& 0 <= read.table < self.tables.len()
        &&& forall|k: Seq<u8>| #[trigger]
            read.observed.contains_key(k) ==> read.observed[k] <= self.clock.watermark
        &&& match read.scope {
            ScopeView::Row(k) => true,
            ScopeView::Rows(filter) => match *filter {
                Filter::Range { position, .. } => position < self.tables[read.table].indexes.len(),
                _ => true,
            },
        }
    }

    /// Whoever holds a slot or a claim is running.
    pub open spec fn owners_ok(self) -> bool {
        &&& forall|t: int, k: Seq<u8>|
            #![trigger self.tables[t].slots[k]]
            0 <= t < self.tables.len() && self.tables[t].slots[k].lock != 0 ==> self.live(
                self.tables[t].slots[k].lock,
            )
        &&& forall|t: int, p: int, ik: Seq<u8>|
            #![trigger self.tables[t].claims[p].contains_key(ik)]
            0 <= t < self.tables.len() && 0 <= p < self.tables[t].claims.len()
                && self.tables[t].claims[p].contains_key(ik) ==> self.live(
                self.tables[t].claims[p][ik],
            )
    }

    /// The mark that `id` leaves on the versions it writes.
    pub open spec fn mark_of(self, id: u64) -> Option<TxnId> {
        if self.txns[id].rules.validates_reads {
            Some(TxnId(id))
        } else {
            None
        }
    }

    /// What is in flight bears its author's mark.
    pub open spec fn marks_ok(self) -> bool {
        forall|t: int, k: Seq<u8>, i: int|
            #![trigger self.tables[t].slots[k].chain[i]]
            0 <= t < self.tables.len() && settled(self.tables[t].slots[k].chain) <= i
                < self.tables[t].slots[k].chain.len() ==> self.tables[t].slots[k].chain[i].writer
                == self.mark_of(self.tables[t].slots[k].lock)
    }

    /// What holds of a database between statements.
    pub open spec fn inv(self) -> bool {
        &&& self.clock_ok()
        &&& self.active_ok()
        &&& self.owners_ok()
        &&& self.marks_ok()
        &&& self.gc_hint <= self.clock.watermark
        &&& self.tables.len() <= 65536
        &&& forall|t: int|
            0 <= t < self.tables.len() ==> (#[trigger] self.tables[t]).sound(self.clock.watermark)
        &&& forall|id: u64| #[trigger] self.txns.contains_key(id) ==> self.txn_ok(id)
        &&& forall|id: u64| #[trigger]
            self.states.contains_key(id) ==> self.states[id].id == TxnId(id)
    }
}

} // verus!
