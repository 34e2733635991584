//! Executions of serializable transactions, and the histories they leave.

use std::sync::Arc;

use vstd::prelude::*;

use crate::chain::{
    lemma_aborted, lemma_commit_shows, lemma_current, lemma_installed, lemma_pruned,
    lemma_read_latest, lemma_read_other, lemma_read_stamped_before, lemma_recent_survives,
    lemma_stamped, same_record,
};
use crate::filter::{passes, Filter};
use crate::history::{
    accounted, affects, after, among, dangerous, first_committer_won, fresh, harmless, last_writer,
    law_postponed_histories_are_serializable, lemma_last_writer, lemma_postponed_misses,
    lemma_unchanged, misses, postponed, serializable, shows, starts_ok, writers, wrote_any, Done,
};
use crate::isolation::{law_levels_differ_only_in_their_constants, rules_of, Serializable};
use crate::keep::{
    lemma_begin_inv, lemma_committed_inv, lemma_detected_inv, lemma_fresh,
    lemma_gc_watermark_bounds, lemma_read_inv, lemma_refreshed_inv, lemma_rolled_back_inv,
    lemma_seen_bound, lemma_stamped_inv, lemma_watermark_rises, lemma_write_inv, quieter,
};
use crate::laws::{
    committed_record, law_commits_are_atomic, law_committed_pivots_block_their_readers,
    law_pivots_cannot_commit,
};
use crate::oracle::{law_txn_ids_are_unique, nth_id, IDS_PER_SHARD, SHARDS};
use crate::slot::{
    lemma_newest_index, lemma_settled, live_value, newest_index, read_at, rolled_back, settled,
    stamped, visible, SlotView, Version,
};
use crate::ssi::expired;
use crate::state::{
    gc_watermark, missed, overwrites, seen, shared, unshared, was_issued, DbView, ReadView,
    ScopeView,
};
use crate::table::{began, hit, live_locks, watched, watches, writer_at, TableView};
use crate::time::{TxnId, FOREVER, NOBODY};
use crate::versioned::Versioned;

verus! {

/// One step of an execution.
#[verifier::reject_recursive_types(T)]
pub enum Event<T: Versioned> {
    /// A serializable transaction begins, with an id from this slot.
    Begin { slot: int },
    /// A transaction reads.
    Read { id: u64, t: int, scope: ScopeView<T> },
    /// A transaction writes a record, or deletes it.
    Write { id: u64, t: int, k: Seq<u8>, value: Option<T> },
    /// A transaction tries to commit.
    Commit { id: u64 },
    /// A transaction aborts.
    Abort { id: u64 },
}

/// Whether the step can be taken.
pub open spec fn allowed<T: Versioned>(db: DbView<T>, e: Event<T>) -> bool {
    match e {
        Event::Begin { slot } => 0 <= slot < SHARDS && db.clock.issued[slot] < IDS_PER_SHARD,
        Event::Read { id, t, scope } => db.live(id) && 0 <= t < db.tables.len() && match scope {
            ScopeView::Row(_) => true,
            ScopeView::Rows(filter) => match *filter {
                Filter::Range { position, .. } => position < db.tables[t].indexes.len(),
                _ => true,
            },
        },
        Event::Write { id, t, k, value } => db.live(id) && 0 <= t < db.tables.len() && (
        value matches Some(x) ==> x.spec_key() == k) && db.write_conflict(id, t, k, value) is None,
        Event::Commit { id } => db.live(id) && db.clock.next < FOREVER,
        Event::Abort { id } => db.live(id),
    }
}

/// The database after the step.
pub open spec fn stepped<T: Versioned>(db: DbView<T>, e: Event<T>) -> DbView<T> {
    match e {
        Event::Begin { slot } => db.after_begin(slot, rules_of::<Serializable>()),
        Event::Read { id, t, scope } => db.after_read(id, t, scope),
        Event::Write { id, t, k, value } => db.after_write(id, t, k, value),
        Event::Commit { id } => db.after_commit(id),
        Event::Abort { id } => db.after_abort(id),
    }
}

/// What the history keeps of a transaction that commits now. The history began
/// when the read watermark was `origin`.
pub open spec fn done<T: Versioned>(db: DbView<T>, origin: u64, id: u64) -> Done<T> {
    Done {
        id,
        start: db.txns[id].snapshot - origin,
        reads: db.txns[id].reads,
        writes: Map::new(
            |x: (int, Seq<u8>)| 0 <= x.0 < db.tables.len() && db.tables[x.0].slots[x.1].lock == id,
            |x: (int, Seq<u8>)| live_value(Some(db.tables[x.0].slots[x.1].chain.last())),
        ),
        stale: db.needs_validation(id) && db.reads_changed(id),
    }
}

/// The history after the step.
pub open spec fn recorded<T: Versioned>(
    db: DbView<T>,
    origin: u64,
    h: Seq<Done<T>>,
    e: Event<T>,
) -> Seq<Done<T>> {
    match e {
        Event::Commit { id } => if db.commit_error(id) is None {
            h.push(done(db, origin, id))
        } else {
            h
        },
        _ => h,
    }
}

/// The database and the history after the first `n` steps from `db`.
pub open spec fn run<T: Versioned>(db: DbView<T>, events: Seq<Event<T>>, n: int) -> (
    DbView<T>,
    Seq<Done<T>>,
)
    decreases n,
{
    if n <= 0 {
        (db, Seq::empty())
    } else {
        let (d, h) = run(db, events, n - 1);
        (stepped(d, events[n - 1]), recorded(d, db.clock.watermark, h, events[n - 1]))
    }
}

/// The records that are committed in `db`.
pub open spec fn contents<T: Versioned>(db: DbView<T>) -> spec_fn(int, Seq<u8>) -> Option<T> {
    |t: int, k: Seq<u8>| committed_record(db, t, k, db.clock.watermark)
}

// --- what holds between the steps -------------------------------------------------

/// The clock has counted the commits of the history, and the transactions that
/// run are serializable and began within it.
pub open spec fn in_time<T: Versioned>(db: DbView<T>, origin: u64, h: Seq<Done<T>>) -> bool {
    &&& db.clock.watermark == origin + h.len()
    &&& forall|id: u64| #[trigger]
        db.txns.contains_key(id) ==> db.txns[id].rules == rules_of::<Serializable>() && origin
            <= db.txns[id].snapshot
}

/// What was committed at each time is what the history says.
pub open spec fn recounts<T: Versioned>(
    db: DbView<T>,
    origin: u64,
    base: spec_fn(int, Seq<u8>) -> Option<T>,
    h: Seq<Done<T>>,
) -> bool {
    forall|t: int, k: Seq<u8>, s: u64| #[trigger]
        committed_record(db, t, k, s) == after(base, h, s - origin, t, k) || !(0 <= t
            < db.tables.len() && origin <= s <= db.clock.watermark && db.gc_hint <= s)
}

/// When commit `a` took place.
pub open spec fn time_of(origin: u64, a: int) -> u64 {
    (origin + a + 1) as u64
}

/// The version that commit `a` wrote of a record is there and bears its mark,
/// unless that is too long ago to matter to anyone.
pub open spec fn kept_at<T: Versioned>(
    db: DbView<T>,
    origin: u64,
    h: Seq<Done<T>>,
    a: int,
    t: int,
    k: Seq<u8>,
) -> bool {
    let v = read_at(db.tables[t].slots[k].chain, time_of(origin, a), NOBODY);
    h[a].writes.contains_key((t, k)) && db.gc_hint < origin + a + 1 ==> v is Some
        && v->Some_0.begin == origin + a + 1 && v->Some_0.writer == Some(TxnId(h[a].id))
}

pub open spec fn all_kept<T: Versioned>(db: DbView<T>, origin: u64, h: Seq<Done<T>>) -> bool {
    forall|a: int, t: int, k: Seq<u8>|
        0 <= a < h.len() && 0 <= t < db.tables.len() ==> #[trigger] kept_at(db, origin, h, a, t, k)
}

/// `id` is registered as having made this read.
pub open spec fn registered<T: Versioned>(
    tables: Seq<TableView<T>>,
    id: u64,
    read: ReadView<T>,
) -> bool {
    &&& 0 <= read.table < tables.len()
    &&& match read.scope {
        ScopeView::Row(k) => tables[read.table].slots[k].readers.contains(id),
        ScopeView::Rows(filter) => exists|j: int|
            0 <= j < tables[read.table].locks.len() && #[trigger] tables[read.table].locks[j] == (
                id,
                filter,
            ),
    }
}

/// `id` is registered as having made all of these reads.
pub open spec fn all_registered<T: Versioned>(
    tables: Seq<TableView<T>>,
    id: u64,
    reads: Seq<ReadView<T>>,
) -> bool {
    forall|r: int| 0 <= r < reads.len() ==> registered(tables, id, #[trigger] reads[r])
}

/// The database knows of a commit what it takes to find conflicts with it.
pub open spec fn remembers<T: Versioned>(db: DbView<T>, origin: u64, d: Done<T>, a: int) -> bool {
    &&& all_registered(db.tables, d.id, d.reads)
    &&& db.states.contains_key(d.id)
    &&& db.states[d.id].committed_at == origin + a + 1
    &&& !db.states[d.id].aborted
    &&& d.stale ==> db.states[d.id].out_conflict
}

/// Reads are on record while they can matter: those of every running
/// transaction, and those of every commit that one of them does not see.
pub open spec fn on_record<T: Versioned>(db: DbView<T>, origin: u64, h: Seq<Done<T>>) -> bool {
    &&& forall|id: u64| #[trigger]
        db.txns.contains_key(id) ==> all_registered(db.tables, id, db.txns[id].reads)
    &&& forall|a: int|
        0 <= a < h.len() && gc_watermark(db.clock) < origin + a + 1 ==> remembers(
            db,
            origin,
            #[trigger] h[a],
            a,
        )
}

/// What a read found is what the history has: nothing that came after it, and
/// every row that was there.
pub open spec fn faithful<T: Versioned>(
    base: spec_fn(int, Seq<u8>) -> Option<T>,
    h: Seq<Done<T>>,
    snapshot: u64,
    origin: u64,
    read: ReadView<T>,
) -> bool {
    &&& forall|k: Seq<u8>| #[trigger]
        read.observed.contains_key(k) ==> read.observed[k] <= snapshot
    &&& read.scope is Rows ==> forall|k: Seq<u8>|
        #![trigger read.observed.contains_key(k)]
        shows(read.scope, k, after(base, h, snapshot - origin, read.table, k)) is Some
            ==> read.observed.contains_key(k)
}

pub open spec fn all_faithful<T: Versioned>(
    db: DbView<T>,
    origin: u64,
    base: spec_fn(int, Seq<u8>) -> Option<T>,
    h: Seq<Done<T>>,
) -> bool {
    forall|id: u64, r: int|
        #![trigger db.txns[id].reads[r]]
        db.txns.contains_key(id) && 0 <= r < db.txns[id].reads.len() ==> faithful(
            base,
            h,
            db.txns[id].snapshot,
            origin,
            db.txns[id].reads[r],
        )
}

/// Whoever is writing a record sees its last commit.
pub open spec fn first_committer_wins<T: Versioned>(
    db: DbView<T>,
    origin: u64,
    h: Seq<Done<T>>,
) -> bool {
    forall|t: int, k: Seq<u8>|
        #![trigger db.tables[t].slots[k]]
        0 <= t < db.tables.len() && db.tables[t].slots[k].lock != 0 ==> last_writer(
            h,
            h.len() as int,
            t,
            k,
        ) < db.txns[db.tables[t].slots[k].lock].snapshot - origin
}

/// The transactions of the history were given their ids and have finished.
pub open spec fn finished<T: Versioned>(db: DbView<T>, h: Seq<Done<T>>) -> bool {
    forall|a: int|
        0 <= a < h.len() ==> was_issued(db.clock, (#[trigger] h[a]).id) && !db.live(h[a].id)
}

/// Whoever wrote something and committed although what it read had changed was
/// noticed.
pub open spec fn noticed<T: Versioned>(
    base: spec_fn(int, Seq<u8>) -> Option<T>,
    h: Seq<Done<T>>,
) -> bool {
    forall|j: int|
        0 <= j < h.len() && wrote_any(h[j]) && !(#[trigger] h[j]).stale ==> fresh(base, h, j)
}

/// The history so far: what the database still holds of it, and that nothing in
/// it is in the way of a serial order.
pub open spec fn followed<T: Versioned>(
    db: DbView<T>,
    origin: u64,
    base: spec_fn(int, Seq<u8>) -> Option<T>,
    h: Seq<Done<T>>,
) -> bool {
    &&& db.inv()
    &&& in_time(db, origin, h)
    &&& recounts(db, origin, base, h)
    &&& all_kept(db, origin, h)
    &&& on_record(db, origin, h)
    &&& all_faithful(db, origin, base, h)
    &&& first_committer_wins(db, origin, h)
    &&& finished(db, h)
    &&& starts_ok(h)
    &&& first_committer_won(h)
    &&& noticed(base, h)
    &&& harmless(base, postponed(base, h), writers(h))
}

// --- steps that commit nothing ---------------------------------------------------

/// Steps that commit nothing leave what is committed alone.
proof fn lemma_nothing_committed<T: Versioned>(
    a: DbView<T>,
    b: DbView<T>,
    origin: u64,
    base: spec_fn(int, Seq<u8>) -> Option<T>,
    h: Seq<Done<T>>,
)
    requires
        followed(a, origin, base, h),
        b.inv(),
        b.clock.watermark == a.clock.watermark,
        b.gc_hint == a.gc_hint,
        b.tables.len() == a.tables.len(),
        forall|t: int, k: Seq<u8>|
            #![trigger b.tables[t].slots[k]]
            0 <= t < a.tables.len() ==> rolled_back(b.tables[t].slots[k].chain) == rolled_back(
                a.tables[t].slots[k].chain,
            ),
    ensures
        recounts(b, origin, base, h),
        all_kept(b, origin, h),
{
    assert forall|t: int, k: Seq<u8>, s: u64| 0 <= t < a.tables.len() implies read_at(
        #[trigger] b.tables[t].slots[k].chain,
        s,
        NOBODY,
    ) == #[trigger] read_at(a.tables[t].slots[k].chain, s, NOBODY) by {
        assert(a.tables[t].sound(a.clock.watermark));
        assert(b.tables[t].sound(b.clock.watermark));
        assert(a.tables[t].slots[k].ok_by(a.clock.watermark));
        assert(b.tables[t].slots[k].ok_by(b.clock.watermark));
        lemma_read_other(a.tables[t].slots[k], s, NOBODY);
        lemma_read_other(b.tables[t].slots[k], s, NOBODY);
    }
    assert forall|t: int, k: Seq<u8>, s: u64| #[trigger]
        committed_record(b, t, k, s) == after(base, h, s - origin, t, k) || !(0 <= t
            < b.tables.len() && origin <= s <= b.clock.watermark && b.gc_hint <= s) by {
        if 0 <= t < b.tables.len() {
            let x = read_at(a.tables[t].slots[k].chain, s, NOBODY);
            assert(committed_record(b, t, k, s) == committed_record(a, t, k, s));
        }
    }
    assert forall|c: int, t: int, k: Seq<u8>|
        0 <= c < h.len() && 0 <= t < b.tables.len() implies #[trigger] kept_at(
        b,
        origin,
        h,
        c,
        t,
        k,
    ) by {
        assert(kept_at(a, origin, h, c, t, k));
        let x = read_at(a.tables[t].slots[k].chain, time_of(origin, c), NOBODY);
    }
}

/// An id that has been given out is not given out again.
proof fn lemma_unissued<T: Versioned>(db: DbView<T>, slot: int, x: u64)
    requires
        db.inv(),
        0 <= slot < SHARDS,
        db.clock.issued[slot] < IDS_PER_SHARD,
        was_issued(db.clock, x),
    ensures
        x != nth_id(slot, db.clock.issued[slot] as int) as u64,
{
    let n = db.clock.issued[slot] as int;
    lemma_fresh(db, slot);
    let (s2, n2) = choose|s2: int, n2: int|
        0 <= s2 < SHARDS && 0 <= n2 < db.clock.issued[s2] && #[trigger] nth_id(s2, n2) == x;
    if x == nth_id(slot, n) as u64 {
        law_txn_ids_are_unique(slot, n, s2, n2);
    }
}

/// A transaction begins.
proof fn lemma_begun<T: Versioned>(
    db: DbView<T>,
    origin: u64,
    base: spec_fn(int, Seq<u8>) -> Option<T>,
    h: Seq<Done<T>>,
    slot: int,
)
    requires
        followed(db, origin, base, h),
        allowed(db, Event::Begin { slot }),
    ensures
        followed(stepped(db, Event::Begin { slot }), origin, base, h),
{
    let rules = rules_of::<Serializable>();
    let b = db.after_begin(slot, rules);
    let id = nth_id(slot, db.clock.issued[slot] as int) as u64;
    lemma_begin_inv(db, slot, rules);
    lemma_fresh(db, slot);
    lemma_nothing_committed(db, b, origin, base, h);
    lemma_gc_watermark_bounds(db);
    lemma_watermark_rises(db, b);
    assert forall|a: int| 0 <= a < h.len() && gc_watermark(b.clock) < origin + a + 1 implies remembers(
        b,
        origin,
        #[trigger] h[a],
        a,
    ) by {
        assert(remembers(db, origin, h[a], a));
        assert(was_issued(db.clock, h[a].id));
        lemma_unissued(db, slot, h[a].id);
        assert(all_registered(b.tables, h[a].id, h[a].reads));
    }
    assert forall|x: u64| #[trigger] b.txns.contains_key(x) implies all_registered(
        b.tables,
        x,
        b.txns[x].reads,
    ) by {
        if x != id {
            assert(db.txns.contains_key(x));
        }
    }
    assert forall|x: u64, r: int|
        #![trigger b.txns[x].reads[r]]
        b.txns.contains_key(x) && 0 <= r < b.txns[x].reads.len() implies faithful(
        base,
        h,
        b.txns[x].snapshot,
        origin,
        b.txns[x].reads[r],
    ) by {
        assert(b.txns[x].reads[r] == db.txns[x].reads[r]);
    }
    assert(first_committer_wins(b, origin, h)) by {
        assert forall|t: int, k: Seq<u8>|
            #![trigger b.tables[t].slots[k]]
            0 <= t < b.tables.len() && b.tables[t].slots[k].lock != 0 implies last_writer(
            h,
            h.len() as int,
            t,
            k,
        ) < b.txns[b.tables[t].slots[k].lock].snapshot - origin by {
            let x = db.tables[t].slots[k];
            assert(db.live(x.lock));
        }
    }
    assert forall|a: int| 0 <= a < h.len() implies was_issued(b.clock, (#[trigger] h[a]).id)
        && !b.live(h[a].id) by {
        lemma_unissued(db, slot, h[a].id);
        let (s2, n2) = choose|s2: int, n2: int|
            0 <= s2 < SHARDS && 0 <= n2 < db.clock.issued[s2] && #[trigger] nth_id(s2, n2)
                == h[a].id;
        assert(n2 < b.clock.issued[s2]);
    }
}

/// A step that takes no lock off keeps what is registered.
proof fn lemma_still_registered<T: Versioned>(
    a: Seq<TableView<T>>,
    b: Seq<TableView<T>>,
    id: u64,
    reads: Seq<ReadView<T>>,
)
    requires
        all_registered(a, id, reads),
        a.len() == b.len(),
        forall|t: int, k: Seq<u8>|
            #![trigger b[t].slots[k]]
            0 <= t < a.len() && a[t].slots[k].readers.contains(id)
                ==> b[t].slots[k].readers.contains(id),
        forall|t: int, j: int|
            #![trigger a[t].locks[j]]
            0 <= t < a.len() && 0 <= j < a[t].locks.len() && a[t].locks[j].0 == id
                ==> b[t].locks.contains(a[t].locks[j]),
    ensures
        all_registered(b, id, reads),
{
    assert forall|r: int| 0 <= r < reads.len() implies registered(b, id, #[trigger] reads[r]) by {
        let read = reads[r];
        assert(registered(a, id, read));
        match read.scope {
            ScopeView::Row(k) => {
                let x = b[read.table].slots[k];
            },
            ScopeView::Rows(filter) => {
                let j = choose|j: int|
                    0 <= j < a[read.table].locks.len() && #[trigger] a[read.table].locks[j] == (
                        id,
                        filter,
                    );
                assert(b[read.table].locks.contains(a[read.table].locks[j]));
                let i = choose|i: int|
                    0 <= i < b[read.table].locks.len() && b[read.table].locks[i]
                        == a[read.table].locks[j];
                assert(b[read.table].locks[i] == (id, filter));
            },
        }
    }
}

/// What a transaction reads is as the history has it.
proof fn lemma_new_read<T: Versioned>(
    db: DbView<T>,
    origin: u64,
    base: spec_fn(int, Seq<u8>) -> Option<T>,
    h: Seq<Done<T>>,
    id: u64,
    t: int,
    scope: ScopeView<T>,
)
    requires
        followed(db, origin, base, h),
        allowed(db, Event::Read { id, t, scope }),
    ensures
        faithful(
            base,
            h,
            db.txns[id].snapshot,
            origin,
            ReadView {
                table: t,
                scope,
                observed: seen(db.tables[t].slots, scope, db.txns[id].snapshot),
            },
        ),
{
    let s = db.txns[id].snapshot;
    assert(db.txn_ok(id));
    assert(db.tables[t].sound(db.clock.watermark));
    lemma_seen_bound(db.tables[t], scope, s, db.clock.watermark);
    let observed = seen(db.tables[t].slots, scope, s);
    match scope {
        ScopeView::Row(_) => {},
        ScopeView::Rows(filter) => {
            assert forall|k: Seq<u8>|
                shows(scope, k, after(base, h, s - origin, t, k)) is Some implies
                #[trigger] observed.contains_key(k) by {
                assert(committed_record(db, t, k, s) == after(base, h, s - origin, t, k));
                assert(hit(db.tables[t].slots[k], s, NOBODY, *filter));
            }
        },
    }
}

/// A transaction reads.
proof fn lemma_read<T: Versioned>(
    db: DbView<T>,
    origin: u64,
    base: spec_fn(int, Seq<u8>) -> Option<T>,
    h: Seq<Done<T>>,
    id: u64,
    t: int,
    scope: ScopeView<T>,
)
    requires
        followed(db, origin, base, h),
        allowed(db, Event::Read { id, t, scope }),
    ensures
        followed(stepped(db, Event::Read { id, t, scope }), origin, base, h),
{
    law_levels_differ_only_in_their_constants();
    let b = db.after_read(id, t, scope);
    assert(db.txns[id].rules == rules_of::<Serializable>());
    lemma_read_inv(db, id, t, scope);
    assert forall|u: int, k: Seq<u8>|
        #![trigger b.tables[u].slots[k]]
        0 <= u < db.tables.len() implies b.tables[u].slots[k].chain
        == db.tables[u].slots[k].chain && b.tables[u].slots[k].lock == db.tables[u].slots[k].lock
        && db.tables[u].slots[k].readers.subset_of(b.tables[u].slots[k].readers) by {}
    assert forall|u: int, j: int|
        #![trigger db.tables[u].locks[j]]
        0 <= u < db.tables.len() && 0 <= j < db.tables[u].locks.len() implies b.tables[u].locks.contains(
        db.tables[u].locks[j],
    ) by {
        assert(b.tables[u].locks[j] == db.tables[u].locks[j]);
    }
    lemma_nothing_committed(db, b, origin, base, h);
    lemma_new_read(db, origin, base, h, id, t, scope);
    let n = db.txns[id].reads.len() as int;
    assert forall|x: u64, r: int|
        #![trigger b.txns[x].reads[r]]
        b.txns.contains_key(x) && 0 <= r < b.txns[x].reads.len() implies faithful(
        base,
        h,
        b.txns[x].snapshot,
        origin,
        b.txns[x].reads[r],
    ) by {
        assert(db.txns.contains_key(x));
        if x != id || r < n {
            assert(b.txns[x].reads[r] == db.txns[x].reads[r]);
        }
    }
    assert forall|x: u64| #[trigger] b.txns.contains_key(x) implies b.txns[x].rules
        == rules_of::<Serializable>() && origin <= b.txns[x].snapshot && all_registered(
        b.tables,
        x,
        b.txns[x].reads,
    ) by {
        assert(db.txns.contains_key(x));
        lemma_still_registered(db.tables, b.tables, x, db.txns[x].reads);
        if x == id {
            assert forall|r: int| 0 <= r < b.txns[x].reads.len() implies registered(
                b.tables,
                x,
                #[trigger] b.txns[x].reads[r],
            ) by {
                if r < n {
                    assert(b.txns[x].reads[r] == db.txns[x].reads[r]);
                } else {
                    match scope {
                        ScopeView::Row(_) => {},
                        ScopeView::Rows(filter) => {
                            assert(b.tables[t].locks[db.tables[t].locks.len() as int] == (
                                id,
                                filter,
                            ));
                        },
                    }
                }
            }
        }
    }
    assert forall|a: int| 0 <= a < h.len() && gc_watermark(b.clock) < origin + a + 1 implies remembers(
        b,
        origin,
        #[trigger] h[a],
        a,
    ) by {
        assert(remembers(db, origin, h[a], a));
        lemma_still_registered(db.tables, b.tables, h[a].id, h[a].reads);
    }
    assert forall|u: int, k: Seq<u8>|
        #![trigger b.tables[u].slots[k]]
        0 <= u < b.tables.len() && b.tables[u].slots[k].lock != 0 implies last_writer(
        h,
        h.len() as int,
        u,
        k,
    ) < b.txns[b.tables[u].slots[k].lock].snapshot - origin by {
        let x = db.tables[u].slots[k];
    }
    assert(finished(b, h));
}

/// A transaction writes.
proof fn lemma_written<T: Versioned>(
    db: DbView<T>,
    origin: u64,
    base: spec_fn(int, Seq<u8>) -> Option<T>,
    h: Seq<Done<T>>,
    id: u64,
    t: int,
    k: Seq<u8>,
    value: Option<T>,
)
    requires
        followed(db, origin, base, h),
        allowed(db, Event::Write { id, t, k, value }),
    ensures
        followed(stepped(db, Event::Write { id, t, k, value }), origin, base, h),
{
    law_levels_differ_only_in_their_constants();
    let b = db.after_write(id, t, k, value);
    assert(db.txn_ok(id));
    assert(unshared(shared(value)) == value);
    lemma_write_inv(db, id, t, k, shared(value));
    let slot = db.tables[t].slots[k];
    assert(db.tables[t].sound(db.clock.watermark));
    assert(slot.ok_by(db.clock.watermark));
    lemma_installed(slot, id, shared(value), db.mark_of(id), db.clock.watermark);
    assert forall|u: int, j: Seq<u8>|
        #![trigger b.tables[u].slots[j]]
        0 <= u < db.tables.len() implies rolled_back(b.tables[u].slots[j].chain) == rolled_back(
        db.tables[u].slots[j].chain,
    ) && b.tables[u].slots[j].readers == db.tables[u].slots[j].readers by {}
    assert forall|u: int, j: int|
        #![trigger db.tables[u].locks[j]]
        0 <= u < db.tables.len() && 0 <= j < db.tables[u].locks.len() implies b.tables[u].locks.contains(
        db.tables[u].locks[j],
    ) by {
        assert(b.tables[u].locks == db.tables[u].locks);
    }
    lemma_nothing_committed(db, b, origin, base, h);
    assert forall|x: u64| #[trigger] b.txns.contains_key(x) implies all_registered(
        b.tables,
        x,
        b.txns[x].reads,
    ) by {
        assert(db.txns.contains_key(x));
        lemma_still_registered(db.tables, b.tables, x, db.txns[x].reads);
    }
    assert forall|a: int| 0 <= a < h.len() && gc_watermark(b.clock) < origin + a + 1 implies remembers(
        b,
        origin,
        #[trigger] h[a],
        a,
    ) by {
        assert(remembers(db, origin, h[a], a));
        lemma_still_registered(db.tables, b.tables, h[a].id, h[a].reads);
    }
    assert forall|u: int, j: Seq<u8>|
        #![trigger b.tables[u].slots[j]]
        0 <= u < b.tables.len() && b.tables[u].slots[j].lock != 0 implies last_writer(
        h,
        h.len() as int,
        u,
        j,
    ) < b.txns[b.tables[u].slots[j].lock].snapshot - origin by {
        let x = db.tables[u].slots[j];
        if u == t && j == k && x.lock == 0 {
            let a = last_writer(h, h.len() as int, t, k);
            lemma_last_writer(base, h, h.len() as int, t, k);
            if a >= db.txns[id].snapshot - origin {
                assert(kept_at(db, origin, h, a, t, k));
                let p = |v: Version<T>| visible(v, time_of(origin, a), NOBODY);
                lemma_newest_index(slot.chain, p);
                let i = newest_index(slot.chain, p);
                lemma_settled(slot.chain);
                let last = slot.chain[slot.chain.len() - 1];
                assert(slot.chain[i].begin <= last.begin);
            }
        }
    }
    assert(finished(b, h));
}

/// Looking for conflicts purges no lock that still matters.
proof fn lemma_purge_keeps<T: Versioned>(db: DbView<T>, id: u64, x: u64, reads: Seq<ReadView<T>>)
    requires
        db.inv(),
        db.live(id),
        db.txns[id].rules.validates_reads,
        all_registered(db.tables, x, reads),
        !expired(db.states_outgoing(id), x, gc_watermark(db.clock)),
    ensures
        all_registered(db.detected(id).0.tables, x, reads),
{
    let d = db.detected(id).0;
    let states = db.states_outgoing(id);
    let gc = gc_watermark(db.clock);
    assert forall|t: int, j: int|
        #![trigger db.tables[t].locks[j]]
        0 <= t < db.tables.len() && 0 <= j < db.tables[t].locks.len() && db.tables[t].locks[j].0
            == x implies d.tables[t].locks.contains(db.tables[t].locks[j]) by {
        let locks = db.tables[t].locks;
        locks.lemma_filter_contains(
            |l: (u64, Arc<Filter<T::Predicate>>)| !expired(states, l.0, gc),
            j,
        );
        assert(live_locks(locks, states, gc).contains(locks[j]));
        assert(d.tables[t].locks == locks || d.tables[t].locks == live_locks(locks, states, gc));
    }
    lemma_still_registered(db.tables, d.tables, x, reads);
}

/// Looking for conflicts.
proof fn lemma_looked<T: Versioned>(
    db: DbView<T>,
    origin: u64,
    base: spec_fn(int, Seq<u8>) -> Option<T>,
    h: Seq<Done<T>>,
    id: u64,
)
    requires
        followed(db, origin, base, h),
        db.live(id),
    ensures
        followed(db.detected(id).0, origin, base, h),
{
    law_levels_differ_only_in_their_constants();
    let d = db.detected(id).0;
    assert(db.txns[id].rules == rules_of::<Serializable>());
    assert(db.txn_ok(id));
    lemma_detected_inv(db, id);
    let states = db.states_outgoing(id);
    let gc = gc_watermark(db.clock);
    assert forall|t: int, k: Seq<u8>|
        #![trigger d.tables[t].slots[k]]
        0 <= t < db.tables.len() implies d.tables[t].slots[k].chain == db.tables[t].slots[k].chain
        && d.tables[t].slots[k].lock == db.tables[t].slots[k].lock by {
        assert(quieter(db.tables[t], d.tables[t]));
    }
    lemma_nothing_committed(db, d, origin, base, h);
    assert forall|x: u64| #[trigger] d.txns.contains_key(x) implies all_registered(
        d.tables,
        x,
        d.txns[x].reads,
    ) by {
        assert(db.txns.contains_key(x));
        assert(db.txn_ok(x));
        assert(db.txns[x].rules == rules_of::<Serializable>());
        assert(states.contains_key(x) && states[x].committed_at == 0 && !states[x].aborted);
        lemma_purge_keeps(db, id, x, db.txns[x].reads);
    }
    assert forall|a: int| 0 <= a < h.len() && gc_watermark(d.clock) < origin + a + 1 implies remembers(
        d,
        origin,
        #[trigger] h[a],
        a,
    ) by {
        let x = h[a].id;
        assert(remembers(db, origin, h[a], a));
        assert(states.contains_key(x) && states[x].committed_at == origin + a + 1
            && !states[x].aborted && (h[a].stale ==> states[x].out_conflict));
        lemma_purge_keeps(db, id, x, h[a].reads);
        assert(x != id);
    }
    assert forall|t: int, k: Seq<u8>|
        #![trigger d.tables[t].slots[k]]
        0 <= t < d.tables.len() && d.tables[t].slots[k].lock != 0 implies last_writer(
        h,
        h.len() as int,
        t,
        k,
    ) < d.txns[d.tables[t].slots[k].lock].snapshot - origin by {
        let x = db.tables[t].slots[k];
    }
    assert(finished(d, h));
    assert(all_faithful(d, origin, base, h));
}

/// A transaction is rolled back.
proof fn lemma_undone<T: Versioned>(
    db: DbView<T>,
    origin: u64,
    base: spec_fn(int, Seq<u8>) -> Option<T>,
    h: Seq<Done<T>>,
    id: u64,
)
    requires
        followed(db, origin, base, h),
        db.live(id),
    ensures
        followed(db.rolled_back(id), origin, base, h),
{
    law_levels_differ_only_in_their_constants();
    let b = db.rolled_back(id);
    assert(db.txn_ok(id));
    lemma_rolled_back_inv(db, id);
    assert forall|t: int, k: Seq<u8>|
        #![trigger b.tables[t].slots[k]]
        0 <= t < db.tables.len() implies rolled_back(b.tables[t].slots[k].chain) == rolled_back(
        db.tables[t].slots[k].chain,
    ) && b.tables[t].slots[k].readers == db.tables[t].slots[k].readers by {
        let slot = db.tables[t].slots[k];
        assert(db.tables[t].sound(db.clock.watermark));
        assert(slot.ok_by(db.clock.watermark));
        if slot.lock == id {
            lemma_aborted(slot, db.clock.watermark);
            assert(rolled_back(slot.aborted().chain) =~= rolled_back(slot.chain));
        }
    }
    lemma_nothing_committed(db, b, origin, base, h);
    lemma_gc_watermark_bounds(db);
    lemma_watermark_rises(db, b);
    assert forall|t: int, j: int|
        #![trigger db.tables[t].locks[j]]
        0 <= t < db.tables.len() && 0 <= j < db.tables[t].locks.len() implies b.tables[t].locks.contains(
        db.tables[t].locks[j],
    ) by {
        assert(b.tables[t].locks == db.tables[t].locks);
    }
    assert forall|x: u64| #[trigger] b.txns.contains_key(x) implies all_registered(
        b.tables,
        x,
        b.txns[x].reads,
    ) by {
        assert(db.txns.contains_key(x));
        lemma_still_registered(db.tables, b.tables, x, db.txns[x].reads);
    }
    assert forall|a: int| 0 <= a < h.len() && gc_watermark(b.clock) < origin + a + 1 implies remembers(
        b,
        origin,
        #[trigger] h[a],
        a,
    ) by {
        assert(remembers(db, origin, h[a], a));
        assert(h[a].id != id);
        lemma_still_registered(db.tables, b.tables, h[a].id, h[a].reads);
    }
    assert forall|t: int, k: Seq<u8>|
        #![trigger b.tables[t].slots[k]]
        0 <= t < b.tables.len() && b.tables[t].slots[k].lock != 0 implies last_writer(
        h,
        h.len() as int,
        t,
        k,
    ) < b.txns[b.tables[t].slots[k].lock].snapshot - origin by {
        let x = db.tables[t].slots[k];
    }
    assert forall|x: u64, r: int|
        #![trigger b.txns[x].reads[r]]
        b.txns.contains_key(x) && 0 <= r < b.txns[x].reads.len() implies faithful(
        base,
        h,
        b.txns[x].snapshot,
        origin,
        b.txns[x].reads[r],
    ) by {
        assert(b.txns[x].reads[r] == db.txns[x].reads[r]);
    }
    assert(finished(b, h));
}

// --- commits -----------------------------------------------------------------------

/// A commit more changes nothing in what came before it.
proof fn lemma_prefix<T: Versioned>(
    base: spec_fn(int, Seq<u8>) -> Option<T>,
    h: Seq<Done<T>>,
    e: Done<T>,
    n: int,
    t: int,
    k: Seq<u8>,
)
    requires
        n <= h.len(),
    ensures
        after(base, h.push(e), n, t, k) == after(base, h, n, t, k),
        last_writer(h.push(e), n, t, k) == last_writer(h, n, t, k),
    decreases n,
{
    if n > 0 {
        lemma_prefix(base, h, e, n - 1, t, k);
    }
}

/// Nor in who missed whom.
proof fn lemma_prefix_misses<T: Versioned>(
    base: spec_fn(int, Seq<u8>) -> Option<T>,
    h: Seq<Done<T>>,
    e: Done<T>,
    i: int,
    j: int,
)
    requires
        0 <= i < h.len(),
        0 <= j < h.len(),
        misses(base, h.push(e), i, j),
    ensures
        misses(base, h, i, j),
{
    let g = h.push(e);
    let (r, k) = choose|r: int, k: Seq<u8>|
        0 <= r < g[i].reads.len() && #[trigger] affects(base, g, j, g[i].reads[r], k);
    lemma_prefix(base, h, e, j, g[i].reads[r].table, k);
    assert(affects(base, h, j, h[i].reads[r], k));
}

/// Nor in who would have read the same later.
proof fn lemma_prefix_postponed<T: Versioned>(
    base: spec_fn(int, Seq<u8>) -> Option<T>,
    h: Seq<Done<T>>,
    e: Done<T>,
) -> (late: Done<T>)
    requires
        starts_ok(h.push(e)),
    ensures
        postponed(base, h.push(e)) == postponed(base, h).push(late),
        forall|i: int|
            0 <= i < h.len() ==> #[trigger] fresh(base, h.push(e), i) == fresh(base, h, i),
{
    let g = h.push(e);
    let n = h.len() as int;
    assert forall|i: int| 0 <= i < n implies #[trigger] fresh(base, g, i) == fresh(base, h, i) by {
        assert(g[i] == h[i]);
        assert(g[i].start <= i);
        assert forall|r: int, k: Seq<u8>| 0 <= r < h[i].reads.len() implies after(
            base,
            g,
            i,
            h[i].reads[r].table,
            k,
        ) == #[trigger] after(base, h, i, h[i].reads[r].table, k) && after(
            base,
            g,
            h[i].start,
            h[i].reads[r].table,
            k,
        ) == after(base, h, h[i].start, h[i].reads[r].table, k) by {
            lemma_prefix(base, h, e, i, h[i].reads[r].table, k);
            lemma_prefix(base, h, e, h[i].start, h[i].reads[r].table, k);
        }
        if fresh(base, g, i) {
            assert forall|r: int, k: Seq<u8>|
                #![trigger shows(h[i].reads[r].scope, k, after(base, h, i, h[i].reads[r].table, k))]
                0 <= r < h[i].reads.len() implies shows(
                h[i].reads[r].scope,
                k,
                after(base, h, i, h[i].reads[r].table, k),
            ) == shows(
                h[i].reads[r].scope,
                k,
                after(base, h, h[i].start, h[i].reads[r].table, k),
            ) by {
                let x = shows(g[i].reads[r].scope, k, after(base, g, i, g[i].reads[r].table, k));
                assert(after(base, g, i, h[i].reads[r].table, k) == after(
                    base,
                    h,
                    i,
                    h[i].reads[r].table,
                    k,
                ));
            }
        }
        if fresh(base, h, i) {
            assert forall|r: int, k: Seq<u8>|
                #![trigger shows(g[i].reads[r].scope, k, after(base, g, i, g[i].reads[r].table, k))]
                0 <= r < g[i].reads.len() implies shows(
                g[i].reads[r].scope,
                k,
                after(base, g, i, g[i].reads[r].table, k),
            ) == shows(
                g[i].reads[r].scope,
                k,
                after(base, g, g[i].start, g[i].reads[r].table, k),
            ) by {
                let x = shows(h[i].reads[r].scope, k, after(base, h, i, h[i].reads[r].table, k));
                assert(after(base, g, i, h[i].reads[r].table, k) == after(
                    base,
                    h,
                    i,
                    h[i].reads[r].table,
                    k,
                ));
            }
        }
    }
    let late = postponed(base, g)[n];
    assert(postponed(base, g) =~= postponed(base, h).push(late)) by {
        assert forall|i: int| 0 <= i < n implies postponed(base, g)[i] == postponed(base, h)[i] by {
            assert(g[i] == h[i]);
            assert(fresh(base, g, i) == fresh(base, h, i));
        }
    }
    late
}

/// Where nothing that a transaction read has changed, it could as well begin now.
proof fn lemma_unchanged_reads<T: Versioned>(
    db: DbView<T>,
    origin: u64,
    base: spec_fn(int, Seq<u8>) -> Option<T>,
    h: Seq<Done<T>>,
    id: u64,
)
    requires
        followed(db, origin, base, h),
        db.live(id),
        !db.reads_changed(id),
    ensures
        fresh(base, h.push(done(db, origin, id)), h.len() as int),
{
    let e = done(db, origin, id);
    let n = h.len() as int;
    let g = h.push(e);
    let since = db.txns[id].snapshot;
    let now = db.clock.watermark;
    assert(db.txns.contains_key(id));
    assert(db.txn_ok(id));
    assert forall|r: int, k: Seq<u8>|
        #![trigger shows(g[n].reads[r].scope, k, after(base, g, n, g[n].reads[r].table, k))]
        0 <= r < g[n].reads.len() implies shows(
        g[n].reads[r].scope,
        k,
        after(base, g, n, g[n].reads[r].table, k),
    ) == shows(
        g[n].reads[r].scope,
        k,
        after(base, g, g[n].start, g[n].reads[r].table, k),
    ) by {
        let read = db.txns[id].reads[r];
        let t = read.table;
        assert(g[n].reads[r] == read);
        assert(db.read_ok(read));
        assert(!db.changed(read));
        assert(faithful(base, h, since, origin, read));
        lemma_prefix(base, h, e, n, t, k);
        lemma_prefix(base, h, e, e.start, t, k);
        let a = last_writer(h, n, t, k);
        lemma_last_writer(base, h, n, t, k);
        if a < e.start {
            lemma_unchanged(base, h, e.start, n, t, k);
        } else {
            assert(kept_at(db, origin, h, a, t, k));
            let slot = db.tables[t].slots[k];
            assert(db.tables[t].sound(now));
            assert(slot.ok_by(now));
            let p = |v: Version<T>| visible(v, time_of(origin, a), NOBODY);
            lemma_newest_index(slot.chain, p);
            let i = newest_index(slot.chain, p);
            lemma_settled(slot.chain);
            lemma_read_latest(slot, now, now);
            lemma_current(slot, NOBODY);
            let v = read_at(slot.chain, now, NOBODY);
            assert(v is Some && v->Some_0.begin > since);
            assert(committed_record(db, t, k, now) == after(base, h, n, t, k));
            match read.scope {
                ScopeView::Row(j) => {
                    if j == k {
                        assert(db.seen_now(read).contains_key(k));
                        assert(read.observed.contains_key(k));
                    }
                },
                ScopeView::Rows(filter) => {
                    if shows(read.scope, k, after(base, h, n, t, k)) is Some {
                        assert(hit(slot, now, NOBODY, *filter));
                        assert(db.seen_now(read).contains_key(k));
                        assert(read.observed.contains_key(k));
                    } else {
                        assert(!hit(slot, now, NOBODY, *filter));
                        assert(!db.seen_now(read).contains_key(k));
                        assert(!read.observed.contains_key(k));
                    }
                },
            }
        }
    }
}

/// Validation finds who wrote what a transaction missed.
proof fn lemma_found<T: Versioned>(
    db: DbView<T>,
    origin: u64,
    base: spec_fn(int, Seq<u8>) -> Option<T>,
    h: Seq<Done<T>>,
    id: u64,
    a: int,
)
    requires
        followed(db, origin, base, h),
        db.live(id),
        0 <= a < h.len(),
        misses(base, h.push(done(db, origin, id)), h.len() as int, a),
    ensures
        db.overwriters(id).contains(h[a].id),
        db.txns[id].snapshot < origin + a + 1,
{
    let e = done(db, origin, id);
    let n = h.len() as int;
    let g = h.push(e);
    let (r, k) = choose|r: int, k: Seq<u8>|
        0 <= r < g[n].reads.len() && #[trigger] affects(base, g, a, g[n].reads[r], k);
    let read = db.txns[id].reads[r];
    let t = read.table;
    let since = db.txns[id].snapshot;
    let now = db.clock.watermark;
    let ts = time_of(origin, a);
    assert(g[n].reads[r] == read);
    lemma_prefix(base, h, e, a, t, k);
    assert(affects(base, h, a, read, k));
    assert(db.txn_ok(id));
    assert(db.read_ok(read));
    assert(kept_at(db, origin, h, a, t, k));
    let slot = db.tables[t].slots[k];
    assert(began(slot, since, now, ts));
    assert(committed_record(db, t, k, ts) == after(base, h, ts - origin, t, k));
    let s = (ts - 1) as u64;
    assert(committed_record(db, t, k, s) == after(base, h, s - origin, t, k));
    assert(missed(db.tables[t].slots, read.scope, k, since, now, ts));
    assert(writer_at(slot, ts) == Some(TxnId(h[a].id)));
    assert(db.missed_by(read, since, h[a].id));
}

/// A transaction that wrote something is validated.
proof fn lemma_validated<T: Versioned>(db: DbView<T>, origin: u64, id: u64)
    requires
        db.txns[id].rules == rules_of::<Serializable>(),
        wrote_any(done(db, origin, id)),
    ensures
        db.needs_validation(id),
{
    law_levels_differ_only_in_their_constants();
    let e = done(db, origin, id);
    let x = choose|x: (int, Seq<u8>)| #[trigger] e.writes.contains_key(x);
    assert(db.tables[x.0].slots[x.1].lock == id);
    assert(db.tables[x.0].written_by(id));
    assert(db.wrote(id));
}

/// Whoever missed a commit in progress, and still matters, is found by it.
proof fn lemma_reader_found<T: Versioned>(
    db: DbView<T>,
    origin: u64,
    base: spec_fn(int, Seq<u8>) -> Option<T>,
    h: Seq<Done<T>>,
    id: u64,
    i: int,
)
    requires
        followed(db, origin, base, h),
        db.live(id),
        0 <= i < h.len(),
        gc_watermark(db.clock) < origin + i + 1,
        misses(base, h.push(done(db, origin, id)), i, h.len() as int),
    ensures
        db.overwritten_readers(id, db.states_outgoing(id)).contains(h[i].id),
{
    let e = done(db, origin, id);
    let n = h.len() as int;
    let g = h.push(e);
    let x = h[i].id;
    let now = db.clock.watermark;
    let states = db.states_outgoing(id);
    assert(remembers(db, origin, h[i], i));
    assert(x != id);
    assert(db.txn_ok(id));
    assert(states.contains_key(x) && states[x].committed_at == origin + i + 1
        && !states[x].aborted);
    let (r, k) = choose|r: int, k: Seq<u8>|
        0 <= r < g[i].reads.len() && #[trigger] affects(base, g, n, g[i].reads[r], k);
    let read = h[i].reads[r];
    let t = read.table;
    assert(registered(db.tables, x, read));
    let slot = db.tables[t].slots[k];
    assert(slot.lock == id);
    assert(db.tables[t].sound(now));
    assert(slot.ok_by(now));
    lemma_settled(slot.chain);
    assert(slot.chain.len() > 0);
    match read.scope {
        ScopeView::Row(_) => {
            assert(slot.readers.contains(x));
        },
        ScopeView::Rows(filter) => {
            let locks = db.tables[t].locks;
            let j = choose|j: int| 0 <= j < locks.len() && #[trigger] locks[j] == (x, filter);
            lemma_prefix(base, h, e, n, t, k);
            if shows(read.scope, k, e.writes[(t, k)]) is Some {
                let last = slot.chain[slot.chain.len() - 1];
                assert(last.value is Some);
                assert(passes(*locks[j].1, *last.value->Some_0));
                assert(watches(locks, x, *last.value->Some_0));
            } else {
                assert(committed_record(db, t, k, now) == after(base, h, n, t, k));
                lemma_read_latest(slot, now, now);
                lemma_current(slot, NOBODY);
                let stood = slot.chain[settled(slot.chain) - 1];
                assert(stood.value is Some);
                assert(passes(*locks[j].1, *stood.value->Some_0));
                assert(watches(locks, x, *stood.value->Some_0));
            }
            assert(watched(db.tables[t], k, x));
        },
    }
    assert(overwrites(db.tables[t], k, id, x));
    assert(db.read_under(id, t, x));
}

/// A commit that succeeds leaves the history harmless.
proof fn lemma_still_harmless<T: Versioned>(
    db: DbView<T>,
    origin: u64,
    base: spec_fn(int, Seq<u8>) -> Option<T>,
    h: Seq<Done<T>>,
    id: u64,
)
    requires
        followed(db, origin, base, h),
        db.live(id),
        db.commit_error(id) is None,
    ensures
        starts_ok(h.push(done(db, origin, id))),
        first_committer_won(h.push(done(db, origin, id))),
        noticed(base, h.push(done(db, origin, id))),
        harmless(
            base,
            postponed(base, h.push(done(db, origin, id))),
            writers(h.push(done(db, origin, id))),
        ),
{
    let e = done(db, origin, id);
    let n = h.len() as int;
    let g = h.push(e);
    assert(db.txn_ok(id));
    assert forall|i: int, j: int, t: int, k: Seq<u8>|
        #![trigger g[i].writes.contains_key((t, k)), g[j].writes.contains_key((t, k))]
        0 <= i < j < g.len() && g[i].writes.contains_key((t, k)) && g[j].writes.contains_key((t, k))
        implies i < g[j].start by {
        assert(h[i].writes.contains_key((t, k)));
        if j < n {
            assert(h[j].writes.contains_key((t, k)));
        } else {
            let x = db.tables[t].slots[k];
            lemma_last_writer(base, h, n, t, k);
        }
    }
    let late = lemma_prefix_postponed(base, h, e);
    assert forall|j: int|
        0 <= j < g.len() && wrote_any(g[j]) && !(#[trigger] g[j]).stale implies fresh(
        base,
        g,
        j,
    ) by {
        if j < n {
            assert(g[j] == h[j]);
            assert(!h[j].stale);
            assert(fresh(base, g, j) == fresh(base, h, j));
        } else {
            lemma_validated(db, origin, id);
            lemma_unchanged_reads(db, origin, base, h, id);
        }
    }
    let p = postponed(base, g);
    assert forall|i: int, j: int, k: int| !#[trigger] dangerous(base, p, writers(g), i, j, k) by {
        if dangerous(base, p, writers(g), i, j, k) {
            lemma_postponed_misses(base, g, i, j);
            lemma_postponed_misses(base, g, j, k);
            assert(g[j].stale);
            if j == n {
                lemma_validated(db, origin, id);
                lemma_gc_watermark_bounds(db);
                assert(db.txns.contains_key(id));
                lemma_found(db, origin, base, h, id, k);
                lemma_reader_found(db, origin, base, h, id, i);
                law_pivots_cannot_commit(db, id, h[i].id);
            } else if i == n {
                lemma_validated(db, origin, id);
                assert(g[n].stale);
                lemma_found(db, origin, base, h, id, j);
                lemma_gc_watermark_bounds(db);
                assert(db.txns.contains_key(id));
                assert(h[j].stale);
                assert(remembers(db, origin, h[j], j));
                law_committed_pivots_block_their_readers(db, id, h[j].id);
            } else {
                lemma_prefix_misses(base, postponed(base, h), late, i, j);
                lemma_prefix_misses(base, postponed(base, h), late, j, k);
                assert(writers(h).contains(i) && writers(h).contains(j) && writers(h).contains(k));
                assert(dangerous(base, postponed(base, h), writers(h), i, j, k));
            }
        }
    }
}

/// What is committed after a commit.
proof fn lemma_commit_recounts<T: Versioned>(
    db: DbView<T>,
    origin: u64,
    base: spec_fn(int, Seq<u8>) -> Option<T>,
    h: Seq<Done<T>>,
    id: u64,
    e: Done<T>,
)
    requires
        followed(db, origin, base, h),
        db.live(id),
        db.clock.next < FOREVER,
        e.writes == done(db, origin, id).writes,
    ensures
        recounts(db.committed(id), origin, base, h.push(e)),
{
    let b = db.committed(id);
    let n = h.len() as int;
    let ts = db.clock.next;
    let now = db.clock.watermark;
    lemma_stamped_inv(db, id);
    lemma_gc_watermark_bounds(db.stamped(id));
    lemma_committed_inv(db, id);
    assert forall|t: int, k: Seq<u8>, s: u64| #[trigger]
        committed_record(b, t, k, s) == after(base, h.push(e), s - origin, t, k) || !(0 <= t
            < b.tables.len() && origin <= s <= b.clock.watermark && b.gc_hint <= s) by {
        if 0 <= t < b.tables.len() && origin <= s <= b.clock.watermark && b.gc_hint <= s {
            law_commits_are_atomic(db, id, t, k, s);
            let slot = db.tables[t].slots[k];
            if s < ts {
                lemma_prefix(base, h, e, s - origin, t, k);
                assert(committed_record(db, t, k, s) == after(base, h, s - origin, t, k));
            } else {
                lemma_prefix(base, h, e, n, t, k);
                assert(db.tables[t].sound(now));
                assert(slot.ok_by(now));
                lemma_read_latest(slot, now, now);
                lemma_read_latest(slot, now, ts);
                assert(committed_record(db, t, k, now) == after(base, h, n, t, k));
                assert(committed_record(db, t, k, ts) == committed_record(db, t, k, now));
                assert(e.writes.contains_key((t, k)) <==> slot.lock == id);
            }
        }
    }
}

/// Which versions there are after a commit.
proof fn lemma_commit_keeps<T: Versioned>(
    db: DbView<T>,
    origin: u64,
    base: spec_fn(int, Seq<u8>) -> Option<T>,
    h: Seq<Done<T>>,
    id: u64,
    e: Done<T>,
)
    requires
        followed(db, origin, base, h),
        db.live(id),
        db.clock.next < FOREVER,
        e.writes == done(db, origin, id).writes,
        e.id == id,
    ensures
        all_kept(db.committed(id), origin, h.push(e)),
{
    law_levels_differ_only_in_their_constants();
    let b = db.committed(id);
    let g = h.push(e);
    let n = h.len() as int;
    let ts = db.clock.next;
    let now = db.clock.watermark;
    let s1 = db.stamped(id);
    let s2 = s1.refreshed();
    assert(db.txn_ok(id));
    assert(db.txns[id].rules == rules_of::<Serializable>());
    lemma_stamped_inv(db, id);
    lemma_gc_watermark_bounds(s1);
    lemma_refreshed_inv(s1);
    assert forall|a: int, t: int, k: Seq<u8>|
        0 <= a < g.len() && 0 <= t < b.tables.len() implies #[trigger] kept_at(
        b,
        origin,
        g,
        a,
        t,
        k,
    ) by {
        let slot = db.tables[t].slots[k];
        assert(db.tables[t].sound(now));
        assert(slot.ok_by(now));
        lemma_settled(slot.chain);
        if g[a].writes.contains_key((t, k)) && b.gc_hint < origin + a + 1 {
            let after = b.tables[t].slots[k];
            if slot.lock == id {
                assert(after == slot.committed(id, ts, db.gc_hint) || after == slot.committed(
                    id,
                    ts,
                    db.gc_hint,
                ).swept(s2.gc_hint));
            } else {
                assert(after == slot || after == slot.swept(s2.gc_hint));
            }
            if a == n {
                assert(slot.lock == id);
                lemma_commit_shows(slot, id, ts, db.gc_hint, s2.gc_hint, now);
                assert(db.tables[t].slots[k].chain[slot.chain.len() - 1].writer == db.mark_of(id));
            } else {
                assert(g[a] == h[a]);
                assert(kept_at(db, origin, h, a, t, k));
                lemma_commit_leaves(
                    slot,
                    id,
                    ts,
                    db.gc_hint,
                    s2.gc_hint,
                    now,
                    time_of(origin, a),
                );
            }
        }
    }
}

/// A version that began before a commit is still there after it, unless it is too
/// old.
proof fn lemma_commit_leaves<T>(
    slot: SlotView<T>,
    id: u64,
    ts: u64,
    w1: u64,
    w2: u64,
    now: u64,
    s: u64,
)
    requires
        slot.ok_by(now),
        0 < id,
        now < ts < FOREVER,
        w1 <= w2 < s <= now,
        read_at(slot.chain, s, NOBODY) is Some,
        read_at(slot.chain, s, NOBODY)->Some_0.begin == s,
    ensures
        slot.lock == id ==> same_record(
            read_at(slot.committed(id, ts, w1).chain, s, NOBODY),
            read_at(slot.chain, s, NOBODY),
        ),
        slot.lock == id ==> same_record(
            read_at(slot.committed(id, ts, w1).swept(w2).chain, s, NOBODY),
            read_at(slot.chain, s, NOBODY),
        ),
        read_at(slot.swept(w2).chain, s, NOBODY) == read_at(slot.chain, s, NOBODY),
{
    if slot.lock == id {
        let mid = SlotView { chain: stamped(slot.chain, id, ts), lock: 0, readers: slot.readers };
        let after = slot.committed(id, ts, w1);
        lemma_stamped(slot, id, ts, now);
        lemma_read_stamped_before(slot, id, ts, s, now);
        lemma_pruned(mid, w1, ts);
        lemma_recent_survives(mid, w1, s);
        lemma_recent_survives(after, w2, s);
    } else if slot.lock == 0 {
        lemma_recent_survives(slot, w2, s);
    }
}

/// What is on record after a commit.
proof fn lemma_commit_remembers<T: Versioned>(
    db: DbView<T>,
    origin: u64,
    base: spec_fn(int, Seq<u8>) -> Option<T>,
    h: Seq<Done<T>>,
    id: u64,
    e: Done<T>,
)
    requires
        followed(db, origin, base, h),
        db.live(id),
        db.clock.next < FOREVER,
        e.id == id,
        e.reads == db.txns[id].reads,
        e.stale ==> db.states[id].out_conflict,
    ensures
        on_record(db.committed(id), origin, h.push(e)),
{
    law_levels_differ_only_in_their_constants();
    let b = db.committed(id);
    let g = h.push(e);
    let n = h.len() as int;
    let s1 = db.stamped(id);
    assert(db.txn_ok(id));
    assert(db.txns[id].rules == rules_of::<Serializable>());
    lemma_stamped_inv(db, id);
    lemma_committed_inv(db, id);
    lemma_gc_watermark_bounds(db);
    lemma_gc_watermark_bounds(s1);
    lemma_watermark_rises(db, s1);
    assert(b.clock == s1.clock);
    assert forall|t: int, k: Seq<u8>|
        #![trigger b.tables[t].slots[k]]
        0 <= t < db.tables.len() implies b.tables[t].slots[k].readers
        == db.tables[t].slots[k].readers by {}
    assert forall|t: int, j: int|
        #![trigger db.tables[t].locks[j]]
        0 <= t < db.tables.len() && 0 <= j < db.tables[t].locks.len() implies b.tables[t].locks.contains(
        db.tables[t].locks[j],
    ) by {
        assert(b.tables[t].locks == db.tables[t].locks);
    }
    assert forall|x: u64| #[trigger] b.txns.contains_key(x) implies all_registered(
        b.tables,
        x,
        b.txns[x].reads,
    ) by {
        assert(db.txns.contains_key(x));
        lemma_still_registered(db.tables, b.tables, x, db.txns[x].reads);
    }
    assert forall|a: int| 0 <= a < g.len() && gc_watermark(b.clock) < origin + a + 1 implies remembers(
        b,
        origin,
        #[trigger] g[a],
        a,
    ) by {
        if a < n {
            assert(g[a] == h[a]);
            assert(remembers(db, origin, h[a], a));
            assert(h[a].id != id);
            lemma_still_registered(db.tables, b.tables, h[a].id, h[a].reads);
            assert(s1.states[h[a].id] == db.states[h[a].id]);
        } else {
            lemma_still_registered(db.tables, b.tables, id, db.txns[id].reads);
            assert(s1.states.contains_key(id) && s1.states[id].committed_at == origin + n + 1);
        }
    }
}

/// A transaction commits, once conflicts have been looked for.
proof fn lemma_entered<T: Versioned>(
    db: DbView<T>,
    origin: u64,
    base: spec_fn(int, Seq<u8>) -> Option<T>,
    h: Seq<Done<T>>,
    id: u64,
    e: Done<T>,
)
    requires
        followed(db, origin, base, h),
        db.live(id),
        db.clock.next < FOREVER,
        e.id == id,
        e.reads == db.txns[id].reads,
        e.writes == done(db, origin, id).writes,
        e.stale ==> db.states[id].out_conflict,
        starts_ok(h.push(e)),
        first_committer_won(h.push(e)),
        noticed(base, h.push(e)),
        harmless(base, postponed(base, h.push(e)), writers(h.push(e))),
    ensures
        followed(db.committed(id), origin, base, h.push(e)),
{
    let b = db.committed(id);
    let g = h.push(e);
    let n = h.len() as int;
    assert(db.txn_ok(id));
    lemma_committed_inv(db, id);
    lemma_commit_recounts(db, origin, base, h, id, e);
    lemma_commit_keeps(db, origin, base, h, id, e);
    lemma_commit_remembers(db, origin, base, h, id, e);
    assert forall|x: u64, r: int|
        #![trigger b.txns[x].reads[r]]
        b.txns.contains_key(x) && 0 <= r < b.txns[x].reads.len() implies faithful(
        base,
        g,
        b.txns[x].snapshot,
        origin,
        b.txns[x].reads[r],
    ) by {
        assert(db.txns.contains_key(x));
        assert(db.txn_ok(x));
        assert(b.txns[x].reads[r] == db.txns[x].reads[r]);
        let read = db.txns[x].reads[r];
        let s = db.txns[x].snapshot;
        assert(faithful(base, h, s, origin, read));
        assert forall|k: Seq<u8>|
            #![trigger read.observed.contains_key(k)]
            read.scope is Rows && shows(
                read.scope,
                k,
                after(base, g, s - origin, read.table, k),
            ) is Some implies read.observed.contains_key(k) by {
            lemma_prefix(base, h, e, s - origin, read.table, k);
        }
    }
    assert forall|t: int, k: Seq<u8>|
        #![trigger b.tables[t].slots[k]]
        0 <= t < b.tables.len() && b.tables[t].slots[k].lock != 0 implies last_writer(
        g,
        g.len() as int,
        t,
        k,
    ) < b.txns[b.tables[t].slots[k].lock].snapshot - origin by {
        let x = db.tables[t].slots[k];
        assert(x.lock != id && b.tables[t].slots[k].lock == x.lock);
        assert(!e.writes.contains_key((t, k)));
        lemma_prefix(base, h, e, n, t, k);
    }
    assert forall|a: int| 0 <= a < g.len() implies was_issued(b.clock, (#[trigger] g[a]).id)
        && !b.live(g[a].id) by {
        let x = g[a].id;
        if a < n {
            assert(g[a] == h[a]);
        }
        assert(was_issued(db.clock, x));
        let (s2, n2) = choose|s2: int, n2: int|
            0 <= s2 < SHARDS && 0 <= n2 < db.clock.issued[s2] && #[trigger] nth_id(s2, n2) == x;
        assert(n2 < b.clock.issued[s2]);
    }
}

/// A transaction tries to commit.
proof fn lemma_tried<T: Versioned>(
    db: DbView<T>,
    origin: u64,
    base: spec_fn(int, Seq<u8>) -> Option<T>,
    h: Seq<Done<T>>,
    id: u64,
)
    requires
        followed(db, origin, base, h),
        allowed(db, Event::Commit { id }),
    ensures
        followed(
            stepped(db, Event::Commit { id }),
            origin,
            base,
            recorded(db, origin, h, Event::Commit { id }),
        ),
{
    law_levels_differ_only_in_their_constants();
    let e = done(db, origin, id);
    assert(db.txns[id].rules == rules_of::<Serializable>());
    assert(db.txn_ok(id));
    lemma_looked(db, origin, base, h, id);
    lemma_detected_inv(db, id);
    let d = db.detected(id).0;
    assert(done(d, origin, id).writes =~= e.writes) by {
        assert forall|x: (int, Seq<u8>)| 0 <= x.0 < db.tables.len() implies
            #[trigger] d.tables[x.0].slots[x.1].lock == db.tables[x.0].slots[x.1].lock
            && d.tables[x.0].slots[x.1].chain == db.tables[x.0].slots[x.1].chain by {
            assert(quieter(db.tables[x.0], d.tables[x.0]));
        }
    }
    if db.commit_error(id) is None {
        lemma_still_harmless(db, origin, base, h, id);
        if db.needs_validation(id) {
            assert(e.stale ==> d.states[id].out_conflict);
            lemma_entered(d, origin, base, h, id, e);
        } else {
            lemma_entered(db, origin, base, h, id, e);
        }
    } else {
        lemma_undone(d, origin, base, h, id);
    }
}

/// The history of an execution is followed.
proof fn lemma_followed<T: Versioned>(db: DbView<T>, events: Seq<Event<T>>, n: int)
    requires
        db.inv(),
        db.txns.dom() == Set::<u64>::empty(),
        0 <= n <= events.len(),
        forall|i: int|
            0 <= i < n ==> allowed(run(db, events, i).0, #[trigger] events[i]),
    ensures
        followed(run(db, events, n).0, db.clock.watermark, contents(db), run(db, events, n).1),
    decreases n,
{
    let origin = db.clock.watermark;
    let base = contents(db);
    if n <= 0 {
        let h = Seq::<Done<T>>::empty();
        assert forall|t: int, k: Seq<u8>, s: u64| #[trigger]
            committed_record(db, t, k, s) == after(base, h, s - origin, t, k) || !(0 <= t
                < db.tables.len() && origin <= s <= db.clock.watermark && db.gc_hint <= s) by {}
        assert forall|t: int, k: Seq<u8>|
            #![trigger db.tables[t].slots[k]]
            0 <= t < db.tables.len() && db.tables[t].slots[k].lock != 0 implies last_writer(
            h,
            0,
            t,
            k,
        ) < db.txns[db.tables[t].slots[k].lock].snapshot - origin by {
            assert(db.live(db.tables[t].slots[k].lock));
            assert(db.txns.dom().contains(db.tables[t].slots[k].lock));
        }
        assert forall|x: u64| !#[trigger] db.txns.contains_key(x) by {
            assert(!db.txns.dom().contains(x));
        }
        assert forall|i: int, j: int, k: int|
            !#[trigger] dangerous(base, postponed(base, h), writers(h), i, j, k) by {}
        assert(followed(db, origin, base, h));
    } else {
        lemma_followed(db, events, n - 1);
        let (d, h) = run(db, events, n - 1);
        assert(allowed(d, events[n - 1]));
        match events[n - 1] {
            Event::Begin { slot } => lemma_begun(d, origin, base, h, slot),
            Event::Read { id, t, scope } => lemma_read(d, origin, base, h, id, t, scope),
            Event::Write { id, t, k, value } => lemma_written(d, origin, base, h, id, t, k, value),
            Event::Commit { id } => lemma_tried(d, origin, base, h, id),
            Event::Abort { id } => lemma_undone(d, origin, base, h, id),
        }
    }
}

/// Commits that wrote nothing fit in where nothing that they missed had itself
/// missed something.
proof fn lemma_readers_harmless<T: Versioned>(
    base: spec_fn(int, Seq<u8>) -> Option<T>,
    h: Seq<Done<T>>,
)
    requires
        starts_ok(h),
        noticed(base, h),
        harmless(base, postponed(base, h), writers(h)),
    ensures
        harmless(base, postponed(base, h), accounted(base, h)),
{
    let s = accounted(base, h);
    let p = postponed(base, h);
    assert forall|i: int, j: int, k: int| !#[trigger] dangerous(base, p, s, i, j, k) by {
        if dangerous(base, p, s, i, j, k) {
            lemma_postponed_misses(base, h, i, j);
            lemma_postponed_misses(base, h, j, k);
            assert(wrote_any(h[j]));
            assert(wrote_any(h[k]));
            assert(h[j].stale);
            if wrote_any(h[i]) {
                assert(dangerous(base, p, writers(h), i, j, k));
            }
        }
    }
}

/// A history that is followed is serializable.
proof fn lemma_serializable<T: Versioned>(
    db: DbView<T>,
    origin: u64,
    base: spec_fn(int, Seq<u8>) -> Option<T>,
    h: Seq<Done<T>>,
)
    requires
        followed(db, origin, base, h),
    ensures
        serializable(base, h, accounted(base, h)),
{
    lemma_readers_harmless(base, h);
    assert(among(h, accounted(base, h)));
    law_postponed_histories_are_serializable(base, h, accounted(base, h));
}

/// Serializable transactions are serializable. From a database at rest, run them
/// interleaved in any way: those that committed could have run one after another.
/// In some order each would have read what it did read, and the same records
/// would have been left behind.
///
/// This accounts for every transaction that wrote something. One that wrote
/// nothing always commits, and is accounted for unless it missed a commit which
/// had itself missed one.
pub proof fn law_serializable_transactions_are_serializable<T: Versioned>(
    db: DbView<T>,
    events: Seq<Event<T>>,
)
    requires
        db.inv(),
        db.txns.dom() == Set::<u64>::empty(),
        forall|i: int|
            0 <= i < events.len() ==> allowed(run(db, events, i).0, #[trigger] events[i]),
    ensures
        ({
            let h = run(db, events, events.len() as int).1;
            serializable(contents(db), h, accounted(contents(db), h))
        }),
{
    let n = events.len() as int;
    lemma_followed(db, events, n);
    lemma_serializable(
        run(db, events, n).0,
        db.clock.watermark,
        contents(db),
        run(db, events, n).1,
    );
}

/// Validation finds what a transaction missed: every transaction that wrote it,
/// also where that has been overwritten in turn, and that something has changed,
/// unless the transaction would read the same now.
pub proof fn law_validation_finds_what_was_missed<T: Versioned>(
    db: DbView<T>,
    events: Seq<Event<T>>,
    id: u64,
    a: int,
)
    requires
        db.inv(),
        db.txns.dom() == Set::<u64>::empty(),
        forall|i: int|
            0 <= i < events.len() ==> allowed(run(db, events, i).0, #[trigger] events[i]),
        run(db, events, events.len() as int).0.live(id),
        ({
            let (d, h) = run(db, events, events.len() as int);
            0 <= a < h.len() && misses(
                contents(db),
                h.push(done(d, db.clock.watermark, id)),
                h.len() as int,
                a,
            )
        }),
    ensures
        ({
            let (d, h) = run(db, events, events.len() as int);
            &&& d.overwriters(id).contains(h[a].id)
            &&& d.reads_changed(id) || fresh(
                contents(db),
                h.push(done(d, db.clock.watermark, id)),
                h.len() as int,
            )
        }),
{
    let n = events.len() as int;
    let (d, h) = run(db, events, n);
    lemma_followed(db, events, n);
    lemma_found(d, db.clock.watermark, contents(db), h, id, a);
    if !d.reads_changed(id) {
        lemma_unchanged_reads(d, db.clock.watermark, contents(db), h, id);
    }
}

/// Whether the record under `k` of table `t` is what the history says: in the
/// committed database, and for every running transaction that is not writing it.
pub open spec fn told<T: Versioned>(
    d: DbView<T>,
    origin: u64,
    base: spec_fn(int, Seq<u8>) -> Option<T>,
    h: Seq<Done<T>>,
    t: int,
    k: Seq<u8>,
) -> bool {
    &&& committed_record(d, t, k, d.clock.watermark) == after(base, h, h.len() as int, t, k)
    &&& forall|id: u64| #[trigger]
        d.live(id) && d.tables[t].slots[k].lock != id ==> d.record_at(id, t, k) == after(
            base,
            h,
            d.txns[id].snapshot - origin,
            t,
            k,
        )
}

/// The history tells what transactions read and what is committed: a running
/// transaction sees the records that the commits before it began left behind,
/// and the committed records are those that all commits left behind.
pub proof fn law_histories_tell_what_is_read<T: Versioned>(
    db: DbView<T>,
    events: Seq<Event<T>>,
    t: int,
    k: Seq<u8>,
)
    requires
        db.inv(),
        db.txns.dom() == Set::<u64>::empty(),
        forall|i: int|
            0 <= i < events.len() ==> allowed(run(db, events, i).0, #[trigger] events[i]),
        0 <= t < run(db, events, events.len() as int).0.tables.len(),
    ensures
        told(
            run(db, events, events.len() as int).0,
            db.clock.watermark,
            contents(db),
            run(db, events, events.len() as int).1,
            t,
            k,
        ),
{
    let n = events.len() as int;
    lemma_followed(db, events, n);
    lemma_told(
        run(db, events, n).0,
        db.clock.watermark,
        contents(db),
        run(db, events, n).1,
        t,
        k,
    );
}

/// What a database that follows a history holds.
proof fn lemma_told<T: Versioned>(
    d: DbView<T>,
    origin: u64,
    base: spec_fn(int, Seq<u8>) -> Option<T>,
    h: Seq<Done<T>>,
    t: int,
    k: Seq<u8>,
)
    requires
        followed(d, origin, base, h),
        0 <= t < d.tables.len(),
    ensures
        told(d, origin, base, h, t, k),
{
    law_levels_differ_only_in_their_constants();
    let slot = d.tables[t].slots[k];
    assert(d.tables[t].sound(d.clock.watermark));
    assert(slot.ok_by(d.clock.watermark));
    assert(committed_record(d, t, k, d.clock.watermark) == after(
        base,
        h,
        d.clock.watermark - origin,
        t,
        k,
    ));
    assert forall|id: u64| #[trigger]
        d.live(id) && d.tables[t].slots[k].lock != id implies d.record_at(id, t, k) == after(
        base,
        h,
        d.txns[id].snapshot - origin,
        t,
        k,
    ) by {
        let s = d.txns[id].snapshot;
        assert(d.txns.contains_key(id));
        assert(d.txn_ok(id));
        assert(d.txns[id].rules == rules_of::<Serializable>());
        lemma_read_other(slot, s, id);
        lemma_read_other(slot, s, NOBODY);
        assert(committed_record(d, t, k, s) == after(base, h, s - origin, t, k));
    }
}

} // verus!
