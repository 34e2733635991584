//! What the engine promises as a whole: the laws that relate its operations.

use vstd::prelude::*;

use crate::chain::{
    lemma_commit_shows, lemma_current, lemma_installed, lemma_pruned, lemma_read_latest,
    lemma_read_other, lemma_read_own, lemma_read_pruned, lemma_read_stamped_after,
    lemma_read_stamped_before, lemma_stamped,
};
use crate::error::Error;
use crate::filter::{passes, Filter};
use crate::isolation::Rules;
use crate::keep::{
    lemma_begin_inv, lemma_committed_inv, lemma_detected_inv, lemma_fresh,
    lemma_gc_watermark_bounds, lemma_pinned, lemma_read_inv, lemma_refreshed_inv,
    lemma_rolled_back_inv, lemma_seen_bound, lemma_stamped_inv, lemma_watermark_rises, quieter,
};
use crate::oracle::{nth_id, IDS_PER_SHARD, SHARDS};
use crate::schema::TableRef;
use crate::slot::{
    current, lemma_settled, live_value, read_at, rolled_back, settled, stamped, SlotView,
};
use crate::ssi::expired;
use crate::state::{differ, gc_watermark, overwrites, shared, DbView, ReadView, ScopeView};
use crate::table::{holds_index_key, watched, watches, writer_at, TableView};
use crate::time::{TxnId, FOREVER, IN_FLIGHT, NOBODY};
use crate::versioned::Versioned;

verus! {

/// `r` sees the same records in `a` and in `b`.
pub open spec fn same_view<T: Versioned>(a: DbView<T>, b: DbView<T>, r: u64) -> bool {
    forall|t: int, k: Seq<u8>|
        #![trigger b.record_at(r, t, k)]
        #![trigger a.record_at(r, t, k)]
        0 <= t < a.tables.len() ==> b.record_at(r, t, k) == a.record_at(r, t, k)
}

/// The record under `k` of table `t` as the committed database had it at `s`.
pub open spec fn committed_record<T: Versioned>(db: DbView<T>, t: int, k: Seq<u8>, s: u64) -> Option<
    T,
> {
    live_value(read_at(db.tables[t].slots[k].chain, s, NOBODY))
}

// --- slots -----------------------------------------------------------------

proof fn lemma_read_committed_before<T>(
    slot: SlotView<T>,
    id: u64,
    ts: u64,
    w: u64,
    now: u64,
    s: u64,
    r: u64,
)
    requires
        slot.ok_by(now),
        slot.lock == id,
        0 < id,
        r != id,
        now < ts < FOREVER,
        w <= s < ts,
    ensures
        slot.committed(id, ts, w).ok_by(ts),
        live_value(read_at(slot.committed(id, ts, w).chain, s, r)) == live_value(
            read_at(slot.chain, s, r),
        ),
{
    let mid = SlotView { chain: stamped(slot.chain, id, ts), lock: 0, readers: slot.readers };
    let after = slot.committed(id, ts, w);
    lemma_stamped(slot, id, ts, now);
    lemma_pruned(mid, w, ts);
    lemma_read_stamped_before(slot, id, ts, s, now);
    lemma_read_pruned(mid, w, s);
    lemma_read_other(slot, s, r);
    lemma_read_other(slot, s, NOBODY);
    lemma_read_other(after, s, r);
    lemma_read_other(after, s, NOBODY);
}

proof fn lemma_read_committed_after<T>(
    slot: SlotView<T>,
    id: u64,
    ts: u64,
    w: u64,
    now: u64,
    s: u64,
)
    requires
        slot.ok_by(now),
        slot.lock == id,
        0 < id,
        now < ts <= s < FOREVER,
        w <= s,
    ensures
        slot.chain.len() > 0,
        slot.committed(id, ts, w).ok_by(ts),
        live_value(read_at(slot.committed(id, ts, w).chain, s, NOBODY)) == live_value(
            Some(slot.chain.last()),
        ),
{
    let mid = SlotView { chain: stamped(slot.chain, id, ts), lock: 0, readers: slot.readers };
    lemma_stamped(slot, id, ts, now);
    lemma_pruned(mid, w, ts);
    lemma_read_stamped_after(slot, id, ts, s, now);
    lemma_read_pruned(mid, w, s);
}

proof fn lemma_read_swept<T>(slot: SlotView<T>, w: u64, s: u64, r: u64, now: u64)
    requires
        slot.ok_by(now),
        w <= s < FOREVER,
    ensures
        live_value(read_at(slot.swept(w).chain, s, r)) == live_value(read_at(slot.chain, s, r)),
{
    if slot.lock == 0 {
        lemma_pruned(slot, w, now);
        lemma_read_pruned(slot, w, s);
        lemma_read_other(slot, s, r);
        lemma_read_other(slot, s, NOBODY);
        lemma_read_other(slot.swept(w), s, r);
        lemma_read_other(slot.swept(w), s, NOBODY);
    }
}

// --- isolation ----------------------------------------------------------------

/// A transaction sees its own writes: what it wrote is what it reads, at every
/// isolation level.
pub proof fn law_own_writes_are_visible<T: Versioned>(
    db: DbView<T>,
    id: u64,
    t: int,
    k: Seq<u8>,
    value: Option<T>,
)
    requires
        db.inv(),
        db.live(id),
        0 <= t < db.tables.len(),
        db.write_conflict(id, t, k, value) is None,
    ensures
        db.after_write(id, t, k, value).record_at(id, t, k) == value,
{
    let b = db.after_write(id, t, k, value);
    assert(db.txn_ok(id));
    assert(db.tables[t].sound(db.clock.watermark));
    let slot = db.tables[t].slots[k];
    assert(slot.ok_by(db.clock.watermark));
    let after = b.tables[t].slots[k];
    lemma_installed(slot, id, shared(value), after.chain.last().writer, db.clock.watermark);
    lemma_read_own(after, db.statement_snapshot(id), id);
}

/// There are no dirty reads: what a transaction writes is invisible to every
/// other one, at every isolation level, for as long as it has not committed.
pub proof fn law_uncommitted_writes_are_invisible<T: Versioned>(
    db: DbView<T>,
    id: u64,
    t: int,
    k: Seq<u8>,
    value: Option<T>,
    r: u64,
)
    requires
        db.inv(),
        db.live(id),
        db.live(r),
        r != id,
        0 <= t < db.tables.len(),
        db.write_conflict(id, t, k, value) is None,
    ensures
        same_view(db, db.after_write(id, t, k, value), r),
{
    let b = db.after_write(id, t, k, value);
    assert(db.txn_ok(id));
    assert(db.txn_ok(r));
    let s = db.statement_snapshot(r);
    assert forall|u: int, j: Seq<u8>|
        #![trigger b.record_at(r, u, j)]
        #![trigger db.record_at(r, u, j)]
        0 <= u < db.tables.len() implies b.record_at(r, u, j) == db.record_at(r, u, j) by {
        assert(db.tables[u].sound(db.clock.watermark));
        let slot = db.tables[u].slots[j];
        assert(slot.ok_by(db.clock.watermark));
        if u == t && j == k {
            let after = b.tables[u].slots[j];
            lemma_installed(slot, id, shared(value), after.chain.last().writer, db.clock.watermark);
            lemma_read_other(slot, s, r);
            lemma_read_other(after, s, r);
        }
    }
}

/// A transaction's snapshot is stable: no other transaction's commit changes
/// what it sees, unless it takes a fresh snapshot per statement.
pub proof fn law_commits_leave_snapshots_alone<T: Versioned>(db: DbView<T>, id: u64, r: u64)
    requires
        db.inv(),
        db.live(id),
        db.live(r),
        r != id,
        db.clock.next < FOREVER,
        !db.txns[r].rules.refresh_snapshot_per_statement,
    ensures
        same_view(db, db.after_commit(id), r),
{
    if db.needs_validation(id) {
        let d = db.detected(id).0;
        lemma_detected_inv(db, id);
        lemma_quiet_view(db, d, r);
        if db.detected(id).1 {
            lemma_committed_view(d, id, r);
        } else {
            law_aborts_are_invisible(d, id, r);
        }
    } else {
        lemma_committed_view(db, id, r);
    }
}

/// Steps that touch read locks only change nobody's view.
proof fn lemma_quiet_view<T: Versioned>(a: DbView<T>, b: DbView<T>, r: u64)
    requires
        b.txns == a.txns,
        b.clock == a.clock,
        b.tables.len() == a.tables.len(),
        forall|t: int|
            #![trigger b.tables[t]]
            0 <= t < a.tables.len() ==> quieter(a.tables[t], b.tables[t]),
    ensures
        same_view(a, b, r),
{
    assert forall|t: int, k: Seq<u8>|
        #![trigger b.record_at(r, t, k)]
        #![trigger a.record_at(r, t, k)]
        0 <= t < a.tables.len() implies b.record_at(r, t, k) == a.record_at(r, t, k) by {
        assert(quieter(a.tables[t], b.tables[t]));
        let x = b.tables[t].slots[k];
    }
}

proof fn lemma_committed_view<T: Versioned>(db: DbView<T>, id: u64, r: u64)
    requires
        db.inv(),
        db.live(id),
        db.live(r),
        r != id,
        db.clock.next < FOREVER,
        !db.txns[r].rules.refresh_snapshot_per_statement,
    ensures
        same_view(db, db.committed(id), r),
{
    let b = db.stamped(id);
    let c = b.refreshed();
    let e = c.swept();
    assert(db.txn_ok(id));
    assert(db.txn_ok(r));
    lemma_stamped_inv(db, id);
    lemma_refreshed_inv(b);
    assert(b.txns.contains_key(r) && b.txns[r] == db.txns[r]);
    assert(c.txns.contains_key(r));
    assert(c.txn_ok(r));
    let s = db.txns[r].snapshot;
    let ts = db.clock.next;
    assert forall|t: int, k: Seq<u8>|
        #![trigger e.record_at(r, t, k)]
        #![trigger db.record_at(r, t, k)]
        0 <= t < db.tables.len() implies e.record_at(r, t, k) == db.record_at(r, t, k) by {
        assert(db.tables[t].sound(db.clock.watermark));
        let slot = db.tables[t].slots[k];
        assert(slot.ok_by(db.clock.watermark));
        if slot.lock == id {
            lemma_read_committed_before(slot, id, ts, db.gc_hint, db.clock.watermark, s, r);
        }
        let mid = c.tables[t].slots[k];
        assert(c.tables[t].sound(c.clock.watermark));
        assert(mid.ok_by(c.clock.watermark));
        lemma_read_swept(mid, c.gc_hint, s, r, c.clock.watermark);
    }
}

/// An abort is invisible to every other transaction.
pub proof fn law_aborts_are_invisible<T: Versioned>(db: DbView<T>, id: u64, r: u64)
    requires
        db.inv(),
        db.live(id),
        db.live(r),
        r != id,
    ensures
        same_view(db, db.rolled_back(id), r),
{
    let b = db.rolled_back(id);
    assert(db.txn_ok(id));
    assert(db.txn_ok(r));
    let s = db.statement_snapshot(r);
    assert forall|t: int, k: Seq<u8>|
        #![trigger b.record_at(r, t, k)]
        #![trigger db.record_at(r, t, k)]
        0 <= t < db.tables.len() implies b.record_at(r, t, k) == db.record_at(r, t, k) by {
        assert(db.tables[t].sound(db.clock.watermark));
        let slot = db.tables[t].slots[k];
        assert(slot.ok_by(db.clock.watermark));
        if slot.lock == id {
            lemma_read_other(slot, s, r);
        }
    }
}

/// Reading changes nobody's view.
pub proof fn law_reading_disturbs_nobody<T: Versioned>(
    db: DbView<T>,
    id: u64,
    t: int,
    scope: ScopeView<T>,
    r: u64,
)
    requires
        db.inv(),
        db.live(id),
        db.live(r),
        0 <= t < db.tables.len(),
    ensures
        same_view(db, db.after_read(id, t, scope), r),
{
    let b = db.after_read(id, t, scope);
    assert forall|u: int, k: Seq<u8>|
        #![trigger b.record_at(r, u, k)]
        #![trigger db.record_at(r, u, k)]
        0 <= u < db.tables.len() implies b.record_at(r, u, k) == db.record_at(r, u, k) by {
        assert(b.tables[u].slots[k].chain == db.tables[u].slots[k].chain);
    }
}

/// Beginning a transaction changes nobody's view, and the new one sees exactly
/// what is committed.
pub proof fn law_beginning_disturbs_nobody<T: Versioned>(
    db: DbView<T>,
    slot: int,
    rules: Rules,
    r: u64,
)
    requires
        db.inv(),
        db.live(r),
        0 <= slot < SHARDS,
        db.clock.issued[slot] < IDS_PER_SHARD,
    ensures
        same_view(db, db.after_begin(slot, rules), r),
        ({
            let id = nth_id(slot, db.clock.issued[slot] as int) as u64;
            forall|t: int, k: Seq<u8>|
                #![trigger db.after_begin(slot, rules).record_at(id, t, k)]
                0 <= t < db.tables.len() ==> db.after_begin(slot, rules).record_at(id, t, k)
                    == live_value(current(db.tables[t].slots[k].chain, NOBODY))
        }),
{
    lemma_fresh(db, slot);
    lemma_begin_inv(db, slot, rules);
    let b = db.after_begin(slot, rules);
    let id = nth_id(slot, db.clock.issued[slot] as int) as u64;
    assert forall|t: int, k: Seq<u8>|
        #![trigger b.record_at(r, t, k)]
        #![trigger db.record_at(r, t, k)]
        0 <= t < db.tables.len() implies b.record_at(r, t, k) == db.record_at(r, t, k) by {}
    assert forall|t: int, k: Seq<u8>|
        #![trigger b.record_at(id, t, k)]
        0 <= t < db.tables.len() implies b.record_at(id, t, k) == live_value(
        current(db.tables[t].slots[k].chain, NOBODY),
    ) by {
        let tv = db.tables[t];
        assert(tv.sound(db.clock.watermark));
        let x = tv.slots[k];
        assert(x.ok_by(db.clock.watermark));
        let s = db.clock.watermark;
        assert(x.lock != id);
        lemma_read_latest(x, s, s);
        lemma_read_other(x, s, id);
        lemma_read_other(x, s, NOBODY);
    }
}

/// Where a transaction sees the same records, its scans return the same rows:
/// no phantoms appear and none vanish.
pub proof fn law_scans_repeat<T: Versioned>(
    a: DbView<T>,
    b: DbView<T>,
    r: u64,
    t: int,
    filter: Filter<T::Predicate>,
)
    requires
        same_view(a, b, r),
        0 <= t < a.tables.len(),
    ensures
        forall|k: Seq<u8>| #[trigger]
            b.rows_at(r, t, filter).contains_key(k) <==> a.rows_at(r, t, filter).contains_key(k),
        forall|k: Seq<u8>|
            a.rows_at(r, t, filter).contains_key(k) ==> live_value(
                Some(#[trigger] b.rows_at(r, t, filter)[k]),
            ) == live_value(Some(a.rows_at(r, t, filter)[k])),
{
    assert forall|k: Seq<u8>| #[trigger]
        b.rows_at(r, t, filter).contains_key(k) <==> a.rows_at(r, t, filter).contains_key(k) by {
        assert(b.record_at(r, t, k) == a.record_at(r, t, k));
    }
    assert forall|k: Seq<u8>| a.rows_at(r, t, filter).contains_key(k) implies live_value(
        Some(#[trigger] b.rows_at(r, t, filter)[k]),
    ) == live_value(Some(a.rows_at(r, t, filter)[k])) by {
        assert(b.record_at(r, t, k) == a.record_at(r, t, k));
        assert(b.rows_at(r, t, filter).contains_key(k));
    }
}

/// A transaction that takes a fresh snapshot per statement sees what is
/// committed by then, and its own writes.
pub proof fn law_fresh_snapshots_see_every_commit<T: Versioned>(
    db: DbView<T>,
    r: u64,
    t: int,
    k: Seq<u8>,
)
    requires
        db.inv(),
        db.live(r),
        db.txns[r].rules.refresh_snapshot_per_statement,
        0 <= t < db.tables.len(),
    ensures
        db.record_at(r, t, k) == live_value(current(db.tables[t].slots[k].chain, r)),
{
    assert(db.txn_ok(r));
    assert(db.tables[t].sound(db.clock.watermark));
    let slot = db.tables[t].slots[k];
    assert(slot.ok_by(db.clock.watermark));
    let s = db.clock.watermark;
    lemma_current(slot, r);
    if slot.lock == r {
        lemma_read_own(slot, s, r);
    } else {
        lemma_read_latest(slot, s, s);
        lemma_read_other(slot, s, r);
        lemma_read_other(slot, s, NOBODY);
        lemma_current(slot, NOBODY);
    }
}

// --- atomicity ------------------------------------------------------------------

/// A commit is atomic. Before its timestamp nothing of it shows; from its
/// timestamp on, all of it does: every record the transaction wrote is as it
/// left it, and nothing else has changed. This holds of every snapshot that can
/// still be read.
pub proof fn law_commits_are_atomic<T: Versioned>(
    db: DbView<T>,
    id: u64,
    t: int,
    k: Seq<u8>,
    s: u64,
)
    requires
        db.inv(),
        db.live(id),
        db.clock.next < FOREVER,
        0 <= t < db.tables.len(),
        db.gc_hint <= s < FOREVER,
        db.committed(id).gc_hint <= s,
    ensures
        committed_record(db.committed(id), t, k, s) == (if s >= db.clock.next
            && db.tables[t].slots[k].lock == id {
            live_value(Some(db.tables[t].slots[k].chain.last()))
        } else {
            committed_record(db, t, k, s)
        }),
{
    let b = db.stamped(id);
    let c = b.refreshed();
    assert(db.txn_ok(id));
    lemma_stamped_inv(db, id);
    lemma_refreshed_inv(b);
    let ts = db.clock.next;
    assert(db.tables[t].sound(db.clock.watermark));
    let slot = db.tables[t].slots[k];
    assert(slot.ok_by(db.clock.watermark));
    if slot.lock == id {
        if s < ts {
            lemma_read_committed_before(slot, id, ts, db.gc_hint, db.clock.watermark, s, NOBODY);
        } else {
            lemma_read_committed_after(slot, id, ts, db.gc_hint, db.clock.watermark, s);
        }
    }
    let mid = c.tables[t].slots[k];
    assert(c.tables[t].sound(c.clock.watermark));
    assert(mid.ok_by(c.clock.watermark));
    lemma_read_swept(mid, c.gc_hint, s, NOBODY, c.clock.watermark);
}

/// An abort discards every write: what the database is after it does not depend
/// on what the transaction wrote, but that there is a record of the key.
pub proof fn law_aborts_discard_writes<T: Versioned>(
    db: DbView<T>,
    id: u64,
    t: int,
    k: Seq<u8>,
    value: Option<T>,
)
    requires
        db.inv(),
        db.live(id),
        0 <= t < db.tables.len(),
        db.write_conflict(id, t, k, value) is None,
    ensures
        db.after_write(id, t, k, value).rolled_back(id) == db.rolled_back(id).with_table(
            t,
            TableView {
                kept: db.tables[t].kept.insert(k),
                ..db.rolled_back(id).tables[t]
            },
        ),
{
    let w = db.after_write(id, t, k, value);
    let a = w.rolled_back(id);
    let b = db.rolled_back(id).with_table(
        t,
        TableView { kept: db.tables[t].kept.insert(k), ..db.rolled_back(id).tables[t] },
    );
    assert(db.txn_ok(id));
    assert(db.tables[t].sound(db.clock.watermark));
    let slot = db.tables[t].slots[k];
    assert(slot.ok_by(db.clock.watermark));
    let after = w.tables[t].slots[k];
    lemma_installed(slot, id, shared(value), after.chain.last().writer, db.clock.watermark);
    lemma_settled(slot.chain);
    assert(rolled_back(after.chain) == rolled_back(slot.chain));
    if value is Some {
        crate::keep::lemma_no_unique_conflict(db.tables[t], id, k, value->Some_0, 0);
    }
    assert forall|u: int| 0 <= u < db.tables.len() implies a.tables[u] == #[trigger] b.tables[u] by {
        assert forall|j: Seq<u8>| #[trigger] a.tables[u].slots[j] == b.tables[u].slots[j] by {
            if u == t && j == k {
                if slot.lock == 0 {
                    assert(rolled_back(slot.chain) =~= slot.chain);
                }
                assert(a.tables[u].slots[j] =~= b.tables[u].slots[j]);
            }
        }
        assert(a.tables[u].slots =~= b.tables[u].slots);
        assert forall|p: int| 0 <= p < db.tables[u].claims.len() implies a.tables[u].claims[p]
            == #[trigger] b.tables[u].claims[p] by {
            let x = db.tables[u].indexes[p];
            assert(a.tables[u].claims[p] =~= b.tables[u].claims[p]);
        }
        assert(a.tables[u].claims =~= b.tables[u].claims);
        assert(a.tables[u] =~= b.tables[u]);
    }
    assert(a.tables =~= b.tables);
    assert(a =~= b);
}

/// A transaction that has committed or aborted is refused from then on.
pub proof fn law_finished_transactions_are_refused<T: Versioned>(
    db: DbView<T>,
    id: u64,
    table: TableRef,
)
    requires
        db.inv(),
        db.live(id),
        db.clock.next < FOREVER,
    ensures
        db.after_commit(id).refused(id, table) == Some(Error::Aborted),
        db.after_abort(id).refused(id, table) == Some(Error::Aborted),
        db.after_commit(id).commit_error(id) == Some(Error::Aborted),
{
    if db.needs_validation(id) {
        lemma_detected_inv(db, id);
    }
}

// --- conflicts -------------------------------------------------------------------

/// No update is lost. Where the first committer wins, a transaction cannot write
/// a record that another has committed since its snapshot, and at no level can
/// it write one that another running transaction has written.
pub proof fn law_updates_are_not_lost<T: Versioned>(
    db: DbView<T>,
    id: u64,
    t: int,
    k: Seq<u8>,
    value: Option<T>,
)
    requires
        db.inv(),
        db.live(id),
        0 <= t < db.tables.len(),
    ensures
        db.tables[t].slots[k].lock != 0 && db.tables[t].slots[k].lock != id ==> db.write_conflict(
            id,
            t,
            k,
            value,
        ) is Some,
        db.txns[id].rules.first_committer_wins && db.write_conflict(id, t, k, value) is None ==> (
        forall|i: int|
            0 <= i < db.tables[t].slots[k].chain.len() && (
            #[trigger] db.tables[t].slots[k].chain[i]).begin < IN_FLIGHT
                && db.tables[t].slots[k].lock != id ==> db.tables[t].slots[k].chain[i].begin
                <= db.txns[id].snapshot),
{
    assert(db.tables[t].sound(db.clock.watermark));
    let slot = db.tables[t].slots[k];
    assert(slot.ok_by(db.clock.watermark));
    lemma_settled(slot.chain);
    if db.txns[id].rules.first_committer_wins && db.write_conflict(id, t, k, value) is None
        && slot.lock != id {
        let n = slot.chain.len() as int;
        assert forall|i: int|
            0 <= i < n && (#[trigger] slot.chain[i]).begin < IN_FLIGHT implies slot.chain[i].begin
            <= db.txns[id].snapshot by {
            let last = slot.chain[n - 1];
            if i < n - 1 {
                assert(slot.chain[i].begin <= slot.chain[i].end);
                assert(slot.chain[i].end <= slot.chain[n - 1].begin);
            }
        }
    }
}

/// Unique indexes are unique: no two records of the committed database share a
/// key of one, and no transaction's own writes make an exception.
pub proof fn law_unique_keys_are_unique<T: Versioned>(
    db: DbView<T>,
    t: int,
    p: int,
    r: u64,
    k1: Seq<u8>,
    k2: Seq<u8>,
)
    requires
        db.inv(),
        0 <= t < db.tables.len(),
        0 <= p < db.tables[t].indexes.len(),
        db.tables[t].indexes[p].unique,
        k1 != k2,
        live_value(current(db.tables[t].slots[k1].chain, r)) is Some,
        live_value(current(db.tables[t].slots[k2].chain, r)) is Some,
    ensures
        live_value(current(db.tables[t].slots[k1].chain, r))->Some_0.spec_index_key(p)
            != live_value(current(db.tables[t].slots[k2].chain, r))->Some_0.spec_index_key(p),
{
    let tv = db.tables[t];
    assert(tv.sound(db.clock.watermark));
    let ik = live_value(current(tv.slots[k1].chain, r))->Some_0.spec_index_key(p);
    assert(holds_index_key(tv.slots[k1], p, ik, r));
    assert(!holds_index_key(tv.slots[k2], p, ik, r));
}

/// A transaction that wrote nothing can always commit.
pub proof fn law_readers_always_commit<T: Versioned>(db: DbView<T>, id: u64)
    requires
        db.inv(),
        db.live(id),
        !db.wrote(id),
    ensures
        db.commit_error(id) is None,
{
}

/// Below the level that validates reads every commit succeeds.
pub proof fn law_only_validation_refuses_commits<T: Versioned>(db: DbView<T>, id: u64)
    requires
        db.inv(),
        db.live(id),
        !db.txns[id].rules.validates_reads,
    ensures
        db.commit_error(id) is None,
{
}

/// A pivot cannot commit: something it read has changed, and someone who still
/// matters has read what it overwrote.
pub proof fn law_pivots_cannot_commit<T: Versioned>(db: DbView<T>, id: u64, reader: u64)
    requires
        db.inv(),
        db.live(id),
        db.needs_validation(id),
        db.reads_changed(id),
        db.overwritten_readers(id, db.states_outgoing(id)).contains(reader),
    ensures
        db.commit_error(id) == Some(Error::SerializationFailure),
{
    assert(db.txn_ok(id));
    let states = db.states_outgoing(id);
    assert(states.contains_key(id) && states[id].out_conflict);
    let readers = db.overwritten_readers(id, states);
    assert(!readers.is_empty());
}

/// Whether a write of `w` to the slot under `k` of table `t` is to something
/// that this read covers: the record it asked for, a row it returned, or one
/// that matches now.
pub open spec fn covers<T: Versioned>(db: DbView<T>, read: ReadView<T>, t: int, k: Seq<u8>) -> bool {
    &&& read.table == t
    &&& match read.scope {
        ScopeView::Row(j) => j == k,
        ScopeView::Rows(filter) => read.observed.contains_key(k) || match live_value(
            Some(db.tables[t].slots[k].chain.last()),
        ) {
            Some(x) => passes(*filter, x),
            None => false,
        },
    }
}

/// Write skew is prevented where reads are validated, for records and for
/// predicates alike. Of two transactions each of which has read what the other
/// has overwritten, once the first has committed the second cannot.
///
/// Here `b` has made the read at `i`, which covers what `a` wrote under `k` of
/// table `t`; and `a` has read what `b` overwrote in table `u`.
pub proof fn law_write_skew_is_prevented<T: Versioned>(
    db: DbView<T>,
    a: u64,
    b: u64,
    i: int,
    t: int,
    k: Seq<u8>,
    u: int,
)
    requires
        db.inv(),
        db.live(a),
        db.live(b),
        a != b,
        db.txns[a].rules.validates_reads,
        db.txns[b].rules.validates_reads,
        db.clock.next < FOREVER,
        0 <= t < db.tables.len(),
        db.tables[t].slots[k].lock == a,
        0 <= i < db.txns[b].reads.len(),
        covers(db, db.txns[b].reads[i], t, k),
        0 <= u < db.tables.len(),
        db.read_under(b, u, a),
        db.commit_error(a) is None,
    ensures
        db.after_commit(a).commit_error(b) == Some(Error::SerializationFailure),
{
    assert(db.txn_ok(a) && db.txn_ok(b));
    let x0 = db.tables[t].slots[k];
    assert(db.tables[t].written_by(a));
    assert(db.wrote(a));
    let d = db.detected(a).0;
    lemma_detected_inv(db, a);
    let s1 = d.stamped(a);
    let s2 = s1.refreshed();
    let e = s2.swept();
    assert(e == db.after_commit(a));
    lemma_stamped_inv(d, a);
    lemma_refreshed_inv(s1);
    lemma_committed_inv(d, a);
    assert(d.txn_ok(a) && d.txn_ok(b));
    let ts = d.clock.next;
    assert(s1.txns.contains_key(b) && s1.txns[b] == db.txns[b]);
    assert(s2.txns.contains_key(b) && s2.txn_ok(b));
    assert(e.txns.contains_key(b) && e.txn_ok(b));
    // What `b` read has changed.
    assert(quieter(db.tables[t], d.tables[t]));
    let slot = d.tables[t].slots[k];
    assert(slot.chain == x0.chain && slot.lock == a);
    assert(d.tables[t].sound(d.clock.watermark));
    assert(slot.ok_by(d.clock.watermark));
    let after = e.tables[t].slots[k];
    lemma_commit_shows(slot, a, ts, d.gc_hint, s2.gc_hint, d.clock.watermark);
    assert(after == slot.committed(a, ts, d.gc_hint) || after == slot.committed(
        a,
        ts,
        d.gc_hint,
    ).swept(s2.gc_hint));
    let now = read_at(after.chain, ts, NOBODY);
    assert(now is Some && now->Some_0.begin == ts && now->Some_0.value
        == slot.chain.last().value);
    let read = db.txns[b].reads[i];
    assert(db.read_ok(read));
    assert(e.txns[b].reads[i] == read);
    assert(e.clock.watermark == ts);
    assert(differ(e.seen_now(read), read.observed, k));
    assert(e.seen_now(read) != read.observed);
    assert(e.reads_changed(b));
    // `a` has read what `b` overwrote, and still matters.
    lemma_gc_watermark_bounds(e);
    lemma_gc_watermark_bounds(s1);
    assert(gc_watermark(e.clock) < ts);
    assert(s1.states.contains_key(a) && s1.states[a].committed_at == ts && !s1.states[a].aborted);
    assert(e.states.contains_key(a) && e.states[a] == s1.states[a]);
    let states = e.states_outgoing(b);
    assert(states.contains_key(a) && states[a].committed_at == ts && !states[a].aborted);
    assert(!expired(states, a, gc_watermark(e.clock)));
    let j = choose|j: Seq<u8>| #[trigger] overwrites(db.tables[u], j, b, a);
    lemma_still_watched(db, a, u, j, b);
    assert(e.tables[u].slots[j].lock == b);
    assert(overwrites(e.tables[u], j, b, a));
    assert(e.read_under(b, u, a));
    assert(e.overwritten_readers(b, states).contains(a));
    assert(e.tables[u].written_by(b)) by {
        let z = e.tables[u].slots[j];
    }
    assert(e.wrote(b));
    law_pivots_cannot_commit(e, b, a);
}

/// Whoever missed what a committed pivot wrote cannot commit either, if anything
/// it read has changed: the pivot had an outgoing conflict when it committed, and
/// this would be its incoming one.
pub proof fn law_committed_pivots_block_their_readers<T: Versioned>(
    db: DbView<T>,
    id: u64,
    w: u64,
)
    requires
        db.inv(),
        db.live(id),
        db.needs_validation(id),
        db.reads_changed(id),
        db.overwriters(id).contains(w),
        db.states.contains_key(w),
        db.states[w].committed_at != 0,
        db.states[w].out_conflict,
    ensures
        db.commit_error(id) == Some(Error::SerializationFailure),
{
    assert(db.txn_ok(id));
    assert(db.beyond_abort(w));
    assert(db.past_saving(id));
}

/// Three transactions cannot conflict in a row with the last one first. Where
/// `b` commits although what it read was overwritten, a transaction `a` that began
/// before, has written something, and then reads what `b` overwrote, cannot
/// commit.
pub proof fn law_dangerous_structures_are_prevented<T: Versioned>(
    db: DbView<T>,
    a: u64,
    b: u64,
    t: int,
    k: Seq<u8>,
)
    requires
        db.inv(),
        db.live(a),
        db.live(b),
        a != b,
        db.txns[a].rules.validates_reads,
        !db.txns[a].rules.refresh_snapshot_per_statement,
        db.txns[b].rules.validates_reads,
        db.clock.next < FOREVER,
        0 <= t < db.tables.len(),
        db.tables[t].slots[k].lock == b,
        db.reads_changed(b),
        db.wrote(a),
        db.commit_error(b) is None,
    ensures
        db.after_commit(b).after_read(a, t, ScopeView::Row(k)).commit_error(a) == Some(
            Error::SerializationFailure,
        ),
{
    assert(db.txn_ok(a) && db.txn_ok(b));
    let x0 = db.tables[t].slots[k];
    assert(db.tables[t].written_by(b));
    assert(db.wrote(b));
    let d = db.detected(b).0;
    lemma_detected_inv(db, b);
    let s1 = d.stamped(b);
    let s2 = s1.refreshed();
    let e = s2.swept();
    assert(e == db.after_commit(b));
    lemma_stamped_inv(d, b);
    lemma_refreshed_inv(s1);
    lemma_committed_inv(d, b);
    assert(d.txn_ok(a) && d.txn_ok(b));
    let ts = d.clock.next;
    assert(s1.txns.contains_key(a) && s1.txns[a] == db.txns[a]);
    assert(s2.txns.contains_key(a) && s2.txn_ok(a));
    assert(e.txns.contains_key(a) && e.txn_ok(a));
    assert(quieter(db.tables[t], d.tables[t]));
    let slot = d.tables[t].slots[k];
    assert(slot.chain == x0.chain && slot.lock == b);
    assert(d.tables[t].sound(d.clock.watermark));
    assert(slot.ok_by(d.clock.watermark));
    lemma_settled(slot.chain);
    let last = slot.chain[slot.chain.len() - 1];
    assert(d.tables[t].slots[k].chain[slot.chain.len() - 1].writer == d.mark_of(b));
    let after = e.tables[t].slots[k];
    lemma_commit_shows(slot, b, ts, d.gc_hint, s2.gc_hint, d.clock.watermark);
    assert(after == slot.committed(b, ts, d.gc_hint) || after == slot.committed(
        b,
        ts,
        d.gc_hint,
    ).swept(s2.gc_hint));
    let now = read_at(after.chain, ts, NOBODY);
    assert(now is Some && now->Some_0.begin == ts && now->Some_0.value == last.value
        && now->Some_0.writer == last.writer);
    assert(e.clock.watermark == ts);
    // `a` reads what stood there before.
    let f = e.after_read(a, t, ScopeView::Row(k));
    lemma_read_inv(e, a, t, ScopeView::Row(k));
    let read = f.txns[a].reads.last();
    assert(e.txns[a].snapshot < ts);
    assert(e.tables[t].sound(ts));
    lemma_seen_bound(e.tables[t], ScopeView::Row(k), e.txns[a].snapshot, ts);
    assert(f.tables[t].slots[k].chain == after.chain);
    assert(f.seen_now(read).contains_key(k) && f.seen_now(read)[k] == ts);
    assert(differ(f.seen_now(read), read.observed, k));
    assert(writer_at(f.tables[t].slots[k], ts) == Some(TxnId(b)));
    assert(f.replaced_at(read, k, b));
    assert(f.changed_by(read, f.txns[a].snapshot, b));
    assert(f.seen_now(read) != read.observed);
    assert(f.reads_changed(a)) by {
        assert(f.txns[a].reads[f.txns[a].reads.len() - 1] == read);
    }
    assert(f.overwriters(a).contains(b));
    // `b` committed with its outgoing conflict on record.
    assert(d.states.contains_key(b) && d.states[b].out_conflict);
    lemma_gc_watermark_bounds(e);
    lemma_gc_watermark_bounds(s1);
    assert(s1.states.contains_key(b) && s1.states[b].committed_at == ts && !s1.states[b].aborted);
    assert(e.states.contains_key(b) && e.states[b] == s1.states[b]);
    // `a` still holds what it wrote.
    let u = choose|u: int| 0 <= u < db.tables.len() && #[trigger] db.tables[u].written_by(a);
    let j = choose|j: Seq<u8>| (#[trigger] db.tables[u].slots[j]).lock == a;
    assert(quieter(db.tables[u], d.tables[u]));
    assert(d.tables[u].slots[j].lock == a);
    assert(e.tables[u].slots[j].lock == a);
    assert(f.tables[u].slots[j].lock == a);
    assert(f.tables[u].written_by(a));
    assert(f.wrote(a));
    law_committed_pivots_block_their_readers(f, a, b);
}

/// Conflicts stay on record for as long as they can matter: while a transaction
/// runs that began before `w` committed, the commits of others forget neither
/// when `w` committed nor the conflicts it had.
pub proof fn law_conflicts_stay_on_record<T: Versioned>(db: DbView<T>, id: u64, w: u64, a: u64)
    requires
        db.inv(),
        db.live(id),
        db.live(a),
        a != id,
        db.clock.next < FOREVER,
        db.states.contains_key(w),
        w != id,
        !db.states[w].aborted,
        db.txns[a].snapshot < db.states[w].committed_at,
    ensures
        db.after_commit(id).states.contains_key(w),
        db.after_commit(id).states[w].committed_at == db.states[w].committed_at,
        !db.after_commit(id).states[w].aborted,
        db.states[w].in_conflict ==> db.after_commit(id).states[w].in_conflict,
        db.states[w].out_conflict ==> db.after_commit(id).states[w].out_conflict,
{
    assert(db.txn_ok(a) && db.txn_ok(id));
    let d = if db.needs_validation(id) {
        lemma_detected_inv(db, id);
        db.detected(id).0
    } else {
        db
    };
    assert(d.states.contains_key(w) && d.states[w].committed_at == db.states[w].committed_at);
    if !db.needs_validation(id) || db.detected(id).1 {
        let s1 = d.stamped(id);
        lemma_stamped_inv(d, id);
        assert(s1.txns.contains_key(a) && s1.txns[a].snapshot == db.txns[a].snapshot);
        lemma_pinned(s1, a);
        lemma_gc_watermark_bounds(s1);
    }
}

/// A commit of `a` leaves alone what stands on record of its own reads.
proof fn lemma_still_watched<T: Versioned>(db: DbView<T>, a: u64, u: int, j: Seq<u8>, b: u64)
    requires
        db.inv(),
        db.live(a),
        db.live(b),
        a != b,
        db.needs_validation(a),
        db.detected(a).1,
        db.clock.next < FOREVER,
        0 <= u < db.tables.len(),
        db.tables[u].slots[j].lock == b,
        db.tables[u].slots[j].readers.contains(a) || watched(db.tables[u], j, a),
    ensures
        ({
            let e = db.detected(a).0.committed(a);
            &&& e.tables[u].slots[j].lock == b
            &&& e.tables[u].slots[j].readers.contains(a) || watched(e.tables[u], j, a)
        }),
{
    assert(db.txn_ok(a) && db.txn_ok(b));
    lemma_detected_inv(db, a);
    let d = db.detected(a).0;
    let e = d.committed(a);
    let states = db.states_outgoing(a);
    assert(quieter(db.tables[u], d.tables[u]));
    assert(d.tables[u].slots[j].readers == db.tables[u].slots[j].readers) by {
        assert(d.tables[u].slots[j].lock == b);
    }
    assert(e.tables[u].slots[j] == d.tables[u].slots[j]);
    assert(e.tables[u].locks == d.tables[u].locks);
    let gc = gc_watermark(db.clock);
    assert(states.contains_key(a) && states[a].committed_at == 0 && !states[a].aborted);
    assert(d.tables[u].locks == db.tables[u].locks || d.tables[u].locks == crate::table::live_locks(
        db.tables[u].locks,
        states,
        gc,
    ));
    crate::table::lemma_watched_live(db.tables[u], d.tables[u], j, a, states, gc);
    if watched(d.tables[u], j, a) {
        let chain = d.tables[u].slots[j].chain;
        let c = choose|c: int|
            settled(chain) - 1 <= c < chain.len() && 0 <= c && (#[trigger] chain[c]).value is Some
                && watches(d.tables[u].locks, a, *chain[c].value->Some_0);
        assert(e.tables[u].slots[j].chain[c].value is Some);
    }
}

/// An outgoing conflict alone is harmless: a transaction that read what another
/// overwrote can be ordered before it, as long as nobody read what it overwrote
/// itself.
pub proof fn law_an_outgoing_conflict_alone_is_harmless<T: Versioned>(db: DbView<T>, id: u64)
    requires
        db.inv(),
        db.live(id),
        db.needs_validation(id),
        !db.past_saving(id),
        !db.states_outgoing(id)[id].in_conflict,
        db.overwritten_readers(id, db.states_outgoing(id)).is_empty(),
    ensures
        db.commit_error(id) is None,
{
    assert(db.txn_ok(id));
    let states = db.states_outgoing(id);
    assert(states.contains_key(id));
}

/// An incoming conflict alone is harmless: a transaction whose reads all still
/// hold commits, whoever read what it overwrote.
pub proof fn law_an_incoming_conflict_alone_is_harmless<T: Versioned>(db: DbView<T>, id: u64)
    requires
        db.inv(),
        db.live(id),
        !db.reads_changed(id),
        !db.states[id].out_conflict,
    ensures
        db.commit_error(id) is None,
{
}

// --- reclamation -------------------------------------------------------------------

/// Reclamation never reaches what a running transaction can read: the watermark
/// is pinned by the oldest snapshot, and the hint that pruning goes by is never
/// past the watermark.
pub proof fn law_the_oldest_snapshot_pins_reclamation<T: Versioned>(db: DbView<T>, id: u64)
    requires
        db.inv(),
        db.live(id),
    ensures
        db.gc_hint <= gc_watermark(db.clock) <= db.txns[id].snapshot,
{
    lemma_gc_watermark_bounds(db);
}

/// The watermark never moves backwards, so a stale hint of it prunes less than
/// it could and never more.
pub proof fn law_the_watermark_never_moves_backwards<T: Versioned>(
    db: DbView<T>,
    id: u64,
    slot: int,
    rules: Rules,
)
    requires
        db.inv(),
        db.live(id),
        db.clock.next < FOREVER,
        0 <= slot < SHARDS,
        db.clock.issued[slot] < IDS_PER_SHARD,
    ensures
        gc_watermark(db.clock) <= gc_watermark(db.after_begin(slot, rules).clock),
        gc_watermark(db.clock) <= gc_watermark(db.committed(id).clock),
        gc_watermark(db.clock) <= gc_watermark(db.rolled_back(id).clock),
{
    lemma_begin_inv(db, slot, rules);
    lemma_fresh(db, slot);
    lemma_committed_inv(db, id);
    lemma_rolled_back_inv(db, id);
    lemma_gc_watermark_bounds(db);
    lemma_watermark_rises(db, db.after_begin(slot, rules));
    lemma_watermark_rises(db, db.committed(id));
    lemma_watermark_rises(db, db.rolled_back(id));
}

/// A sweep changes nobody's view.
pub proof fn law_sweeps_are_invisible<T: Versioned>(db: DbView<T>, r: u64)
    requires
        db.inv(),
        db.live(r),
    ensures
        same_view(db, db.swept(), r),
{
    let b = db.swept();
    assert(db.txn_ok(r));
    let s = db.statement_snapshot(r);
    assert forall|t: int, k: Seq<u8>|
        #![trigger b.record_at(r, t, k)]
        #![trigger db.record_at(r, t, k)]
        0 <= t < db.tables.len() implies b.record_at(r, t, k) == db.record_at(r, t, k) by {
        assert(db.tables[t].sound(db.clock.watermark));
        let slot = db.tables[t].slots[k];
        assert(slot.ok_by(db.clock.watermark));
        lemma_read_swept(slot, db.gc_hint, s, r, db.clock.watermark);
    }
}

/// Compaction changes no record: every chain is what it was.
pub proof fn law_compaction_changes_no_record<T: Versioned>(db: DbView<T>, t: int, k: Seq<u8>)
    requires
        db.inv(),
        0 <= t < db.tables.len(),
    ensures
        db.compacted().tables[t].slots[k].chain == db.tables[t].slots[k].chain,
{
    crate::keep::lemma_compacted_inv(db);
    let x = db.compacted().tables[t].slots[k];
}

} // verus!
