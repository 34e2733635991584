//! What the end of a transaction promises: when it may commit, why it may not, and
//! what is there afterwards.

use std::sync::Arc;

use vstd::prelude::*;

use crate::database::transaction::Transaction;
use crate::database::Database;
use crate::error::{Error, Result};
use crate::filter::Filter;
use crate::chain::{lemma_aborted, lemma_read_latest, lemma_read_other, lemma_read_own};
use crate::isolation::{
    law_levels_differ_only_in_their_constants, rules_of, IsolationLevel, Rules, Snapshot,
};
use crate::keep::{
    lemma_begin_inv, lemma_committed_inv, lemma_detected_inv, lemma_fresh,
    lemma_gc_watermark_bounds, lemma_rolled_back_inv, lemma_stamped_inv, quieter,
};
use crate::laws::{
    committed_record, law_aborts_are_invisible, law_commits_are_atomic,
    law_commits_leave_snapshots_alone, same_view,
};
use crate::oracle::{nth_id, IDS_PER_SHARD, SHARDS};
use crate::promises::{
    as_of, comes_across, held, lasts, law_filters_let_through_what_meets_them, lemma_lasting,
    lemma_observed_at, lemma_one_shown, lemma_shown, meets, observed_rightly, shown,
};
use crate::slot::{lemma_settled, rolled_back, settled, SlotView, Version};
use crate::ssi::TxnState;
use crate::state::{differ, gc_watermark, DbView, ReadView, ScopeView};
use crate::table::{hit, watched, watches, writer_at, TableView};
use crate::time::{Timestamp, TxnId, FOREVER, IN_FLIGHT, NOBODY};
use crate::versioned::Versioned;

verus! {

/// The filter that is shared.
spec fn inside<P>(filter: Arc<Filter<P>>) -> Filter<P> {
    *filter
}

// --- outgoing conflicts ----------------------------------------------------------

/// Whether a read no longer finds what it found.
pub open spec fn outdated<T: Versioned>(db: DbView<T>, read: ReadView<T>) -> bool {
    !observed_rightly(
        db.tables[read.table].slots,
        read.scope,
        db.clock.watermark,
        read.observed,
    )
}

/// Whether something that `id` read is no longer as it was.
pub open spec fn misled<T: Versioned>(db: DbView<T>, id: u64) -> bool {
    exists|i: int|
        0 <= i < db.txns[id].reads.len() && outdated(db, #[trigger] db.txns[id].reads[i])
}

/// Whether this read agrees with what is there now about the record under `k`.
pub open spec fn agrees<T: Versioned>(db: DbView<T>, read: ReadView<T>, k: Seq<u8>) -> bool {
    let chain = db.tables[read.table].slots[k].chain;
    &&& forall|i: int|
        0 <= i < chain.len() && comes_across(
            read.scope,
            k,
            #[trigger] chain[i],
            db.clock.watermark,
        ) ==> read.observed.contains_key(k) && read.observed[k] == chain[i].begin
    &&& read.observed.contains_key(k) ==> exists|i: int|
        0 <= i < chain.len() && #[trigger] comes_across(
            read.scope,
            k,
            chain[i],
            db.clock.watermark,
        )
}

/// Whether `w` wrote what is there now in place of something this read found.
pub open spec fn put_there<T: Versioned>(db: DbView<T>, read: ReadView<T>, w: u64) -> bool {
    exists|k: Seq<u8>, i: int|
        #![trigger db.tables[read.table].slots[k].chain[i]]
        !agrees(db, read, k) && 0 <= i < db.tables[read.table].slots[k].chain.len() && lasts(
            db.tables[read.table].slots[k].chain[i],
            db.clock.watermark,
        ) && db.tables[read.table].slots[k].chain[i].writer == Some(TxnId(w))
}

/// Whether a scan for `filter` is for one of the versions of this record at `s`.
pub open spec fn met_at<T: Versioned>(
    chain: Seq<Version<T>>,
    filter: Filter<T::Predicate>,
    s: u64,
) -> bool {
    exists|j: int|
        0 <= j < chain.len() && lasts(#[trigger] chain[j], s) && held(chain[j]) is Some && meets(
            filter,
            held(chain[j])->Some_0,
        )
}

/// Whether version `i` under `k` came after `since` and concerns this read: it is of
/// the record asked for, or a scan is for it or for what it replaced.
pub open spec fn came_after<T: Versioned>(
    db: DbView<T>,
    read: ReadView<T>,
    since: u64,
    k: Seq<u8>,
    i: int,
) -> bool {
    let chain = db.tables[read.table].slots[k].chain;
    let v = chain[i];
    &&& 0 <= i < chain.len()
    &&& since < v.begin <= db.clock.watermark
    &&& v.begin < v.end
    &&& match read.scope {
        ScopeView::Row(j) => j == k,
        ScopeView::Rows(filter) => met_at(chain, *filter, v.begin) || met_at(
            chain,
            *filter,
            (v.begin - 1) as u64,
        ),
    }
}

/// Whether `w` wrote something that concerns this read and came after `since`.
pub open spec fn came_between<T: Versioned>(
    db: DbView<T>,
    read: ReadView<T>,
    since: u64,
    w: u64,
) -> bool {
    exists|k: Seq<u8>, i: int| #[trigger]
        came_after(db, read, since, k, i) && db.tables[read.table].slots[k].chain[i].writer == Some(
            TxnId(w),
        )
}

/// Whether `w` wrote over something that `id` read.
pub open spec fn wrote_over<T: Versioned>(db: DbView<T>, id: u64, w: u64) -> bool {
    exists|i: int|
        #![trigger db.txns[id].reads[i]]
        0 <= i < db.txns[id].reads.len() && (put_there(db, db.txns[id].reads[i], w) || came_between(
            db,
            db.txns[id].reads[i],
            db.txns[id].snapshot,
            w,
        ))
}

// --- incoming conflicts ----------------------------------------------------------

/// Whether a transaction can still conflict with one that is running: it is running
/// itself, or some that are have begun before it committed.
pub open spec fn still_matters<T: Versioned>(db: DbView<T>, r: u64) -> bool {
    db.states.contains_key(r) && !db.states[r].aborted && (db.states[r].committed_at == 0
        || exists|x: u64| #[trigger]
        db.txns.contains_key(x) && db.txns[x].snapshot < db.states[r].committed_at)
}

/// Whether version `i` is one that whoever writes this record has put in flight, or
/// the one that those are to replace.
pub open spec fn at_stake<T>(slot: SlotView<T>, i: int) -> bool {
    0 <= i < slot.chain.len() && (slot.chain[i].begin >= IN_FLIGHT || slot.chain[i].end == FOREVER)
}

/// Whether `r` has scanned the table for something that is at stake in a record.
pub open spec fn scanned_for<T: Versioned>(tv: TableView<T>, k: Seq<u8>, r: u64) -> bool {
    exists|i: int, j: int|
        #![trigger tv.slots[k].chain[i], tv.locks[j]]
        at_stake(tv.slots[k], i) && held(tv.slots[k].chain[i]) is Some && 0 <= j < tv.locks.len()
            && tv.locks[j].0 == r && meets(*tv.locks[j].1, held(tv.slots[k].chain[i])->Some_0)
}

/// Whether another transaction `r`, which can still conflict, has read something
/// that `id` is writing: the record, or by a scan that is for it.
pub open spec fn has_read<T: Versioned>(db: DbView<T>, id: u64, r: u64) -> bool {
    r != id && still_matters(db, r) && exists|t: int, k: Seq<u8>|
        #![trigger db.tables[t].slots[k]]
        0 <= t < db.tables.len() && db.tables[t].slots[k].lock == id && (
        db.tables[t].slots[k].readers.contains(r) || scanned_for(db.tables[t], k, r))
}

/// Whether `id` is writing anything.
pub open spec fn is_writing<T: Versioned>(db: DbView<T>, id: u64) -> bool {
    exists|t: int, k: Seq<u8>|
        #![trigger db.tables[t].slots[k]]
        0 <= t < db.tables.len() && db.tables[t].slots[k].lock == id
}

// --- the outcome -----------------------------------------------------------------

/// Whether looking for conflicts is called for: reads are validated at the level of
/// `id`, and it is writing something.
pub open spec fn in_question<T: Versioned>(db: DbView<T>, id: u64) -> bool {
    db.txns[id].rules.validates_reads && is_writing(db, id)
}

/// Whether something that `id` read has been overwritten, as far as is known.
pub open spec fn outgoing<T: Versioned>(db: DbView<T>, id: u64) -> bool {
    misled(db, id) || db.states[id].out_conflict
}

/// Whether something that `id` wrote has been read, as far as is on record.
pub open spec fn incoming<T: Versioned>(db: DbView<T>, id: u64) -> bool {
    db.states[id].in_conflict || (misled(db, id) && wrote_over(db, id, id))
}

/// Whether one that has committed, and had read something that was overwritten,
/// wrote over something that `id` read.
pub open spec fn doomed<T: Versioned>(db: DbView<T>, id: u64) -> bool {
    misled(db, id) && exists|w: u64| #[trigger]
        wrote_over(db, id, w) && db.states.contains_key(w) && db.states[w].committed_at != 0
            && db.states[w].out_conflict
}

/// Whether a transaction that is running has to be refused. That takes conflicts in
/// both directions: of its own, something it read was overwritten and something it
/// wrote was read; or of one that has committed, and overwrote something it read
/// after something that one had read was overwritten in turn.
pub open spec fn must_fail<T: Versioned>(db: DbView<T>, id: u64) -> bool {
    in_question(db, id) && (doomed(db, id) || (outgoing(db, id) && (incoming(db, id) || exists|
        r: u64,
    | #[trigger]
        has_read(db, id, r))))
}

proof fn lemma_one_observed<T: Versioned>(
    slots: Map<Seq<u8>, SlotView<T>>,
    scope: ScopeView<T>,
    s: u64,
    a: Map<Seq<u8>, u64>,
    b: Map<Seq<u8>, u64>,
)
    requires
        observed_rightly(slots, scope, s, a),
        observed_rightly(slots, scope, s, b),
    ensures
        a == b,
{
    assert forall|k: Seq<u8>| a.contains_key(k) == b.contains_key(k) && (a.contains_key(k)
        ==> #[trigger] a[k] == b[k]) by {
        if a.contains_key(k) {
            let i = choose|i: int|
                0 <= i < slots[k].chain.len() && #[trigger] comes_across(
                    scope,
                    k,
                    slots[k].chain[i],
                    s,
                );
            let v = slots[k].chain[i];
        }
        if b.contains_key(k) {
            let i = choose|i: int|
                0 <= i < slots[k].chain.len() && #[trigger] comes_across(
                    scope,
                    k,
                    slots[k].chain[i],
                    s,
                );
            let v = slots[k].chain[i];
        }
    }
    assert(a =~= b);
}

pub proof fn lemma_outdated<T: Versioned>(db: DbView<T>, read: ReadView<T>)
    requires
        db.inv(),
        0 <= read.table < db.tables.len(),
    ensures
        outdated(db, read) <==> db.changed(read),
        forall|k: Seq<u8>| #[trigger]
            agrees(db, read, k) <==> !differ(db.seen_now(read), read.observed, k),
{
    let slots = db.tables[read.table].slots;
    let now = db.clock.watermark;
    let seen = db.seen_now(read);
    lemma_observed_at(db, read.table, read.scope, now);
    if !outdated(db, read) {
        lemma_one_observed(slots, read.scope, now, seen, read.observed);
    }
    assert forall|k: Seq<u8>| #[trigger]
        agrees(db, read, k) <==> !differ(seen, read.observed, k) by {
        if seen.contains_key(k) {
            let i = choose|i: int|
                0 <= i < slots[k].chain.len() && #[trigger] comes_across(
                    read.scope,
                    k,
                    slots[k].chain[i],
                    now,
                );
            let v = slots[k].chain[i];
            assert(seen[k] == v.begin);
        }
        if agrees(db, read, k) && read.observed.contains_key(k) {
            let i = choose|i: int|
                0 <= i < slots[k].chain.len() && #[trigger] comes_across(
                    read.scope,
                    k,
                    slots[k].chain[i],
                    now,
                );
            let v = slots[k].chain[i];
            assert(seen.contains_key(k));
        }
        if !differ(seen, read.observed, k) {
            assert forall|i: int|
                0 <= i < slots[k].chain.len() && comes_across(
                    read.scope,
                    k,
                    #[trigger] slots[k].chain[i],
                    now,
                ) implies read.observed.contains_key(k) && read.observed[k]
                == slots[k].chain[i].begin by {
                assert(seen.contains_key(k));
            }
        }
    }
}

proof fn lemma_put_there<T: Versioned>(db: DbView<T>, read: ReadView<T>, w: u64)
    requires
        db.inv(),
        0 <= read.table < db.tables.len(),
    ensures
        put_there(db, read, w) <==> db.replaced_by(read, w),
{
    let slots = db.tables[read.table].slots;
    let now = db.clock.watermark;
    lemma_outdated(db, read);
    assert(db.tables[read.table].sound(now));
    if put_there(db, read, w) {
        let (k, i) = choose|k: Seq<u8>, i: int|
            #![trigger slots[k].chain[i]]
            !agrees(db, read, k) && 0 <= i < slots[k].chain.len() && lasts(
                slots[k].chain[i],
                now,
            ) && slots[k].chain[i].writer == Some(TxnId(w));
        assert(slots[k].ok_by(now));
        lemma_lasting(slots[k], now, NOBODY, now);
        assert(db.replaced_at(read, k, w));
    }
    if db.replaced_by(read, w) {
        let k = choose|k: Seq<u8>| #[trigger] db.replaced_at(read, k, w);
        assert(slots[k].ok_by(now));
        lemma_lasting(slots[k], now, NOBODY, now);
        let v = crate::slot::read_at(slots[k].chain, now, NOBODY)->Some_0;
        let i = choose|i: int| 0 <= i < slots[k].chain.len() && #[trigger] slots[k].chain[i] == v;
        assert(!agrees(db, read, k) && lasts(slots[k].chain[i], now));
    }
}

proof fn lemma_met<T: Versioned>(
    slot: SlotView<T>,
    filter: Filter<T::Predicate>,
    s: u64,
    now: u64,
)
    requires
        slot.ok_by(now),
        s <= now < FOREVER,
    ensures
        met_at(slot.chain, filter, s) <==> hit(slot, s, NOBODY, filter),
{
    lemma_lasting(slot, s, NOBODY, now);
    if met_at(slot.chain, filter, s) {
        let j = choose|j: int|
            0 <= j < slot.chain.len() && lasts(#[trigger] slot.chain[j], s) && held(
                slot.chain[j],
            ) is Some && meets(filter, held(slot.chain[j])->Some_0);
        law_filters_let_through_what_meets_them(filter, held(slot.chain[j])->Some_0);
    }
    if hit(slot, s, NOBODY, filter) {
        let v = crate::slot::read_at(slot.chain, s, NOBODY)->Some_0;
        let j = choose|j: int| 0 <= j < slot.chain.len() && #[trigger] slot.chain[j] == v;
        law_filters_let_through_what_meets_them(filter, held(v)->Some_0);
        assert(lasts(slot.chain[j], s));
    }
}

proof fn lemma_came_between<T: Versioned>(db: DbView<T>, read: ReadView<T>, since: u64, w: u64)
    requires
        db.inv(),
        0 <= read.table < db.tables.len(),
    ensures
        came_between(db, read, since, w) <==> db.missed_by(read, since, w),
{
    let slots = db.tables[read.table].slots;
    let now = db.clock.watermark;
    assert(db.tables[read.table].sound(now));
    if came_between(db, read, since, w) {
        let (k, i) = choose|k: Seq<u8>, i: int| #[trigger]
            came_after(db, read, since, k, i) && slots[k].chain[i].writer == Some(TxnId(w));
        let ts = slots[k].chain[i].begin;
        assert(slots[k].ok_by(now));
        assert(lasts(slots[k].chain[i], ts));
        lemma_lasting(slots[k], ts, NOBODY, now);
        if let ScopeView::Rows(filter) = read.scope {
            lemma_met(slots[k], inside(filter), ts, now);
            lemma_met(slots[k], inside(filter), (ts - 1) as u64, now);
        }
        assert(crate::state::missed(slots, read.scope, k, since, now, ts));
    }
    if db.missed_by(read, since, w) {
        let (k, ts) = choose|k: Seq<u8>, ts: u64| #[trigger]
            crate::state::missed(slots, read.scope, k, since, now, ts) && writer_at(slots[k], ts)
                == Some(TxnId(w));
        assert(slots[k].ok_by(now));
        lemma_lasting(slots[k], ts, NOBODY, now);
        let v = crate::slot::read_at(slots[k].chain, ts, NOBODY)->Some_0;
        let i = choose|i: int| 0 <= i < slots[k].chain.len() && #[trigger] slots[k].chain[i] == v;
        if let ScopeView::Rows(filter) = read.scope {
            lemma_met(slots[k], inside(filter), ts, now);
            lemma_met(slots[k], inside(filter), (ts - 1) as u64, now);
        }
        assert(came_after(db, read, since, k, i));
    }
}

pub proof fn lemma_wrote_over<T: Versioned>(db: DbView<T>, id: u64)
    requires
        db.inv(),
        db.txns.contains_key(id),
    ensures
        misled(db, id) <==> db.reads_changed(id),
        forall|w: u64| #[trigger] wrote_over(db, id, w) <==> db.overwriters(id).contains(w),
{
    let reads = db.txns[id].reads;
    assert(db.txn_ok(id));
    assert forall|i: int| 0 <= i < reads.len() implies outdated(db, #[trigger] reads[i])
        == db.changed(reads[i]) by {
        assert(db.read_ok(reads[i]));
        lemma_outdated(db, reads[i]);
    }
    if misled(db, id) {
        let i = choose|i: int| 0 <= i < reads.len() && outdated(db, #[trigger] reads[i]);
        assert(db.changed(reads[i]));
    }
    if db.reads_changed(id) {
        let i = choose|i: int| 0 <= i < reads.len() && db.changed(#[trigger] reads[i]);
        assert(outdated(db, reads[i]));
    }
    assert forall|w: u64| #[trigger] wrote_over(db, id, w) <==> db.overwriters(id).contains(w) by {
        assert forall|i: int| 0 <= i < reads.len() implies (put_there(
            db,
            #[trigger] reads[i],
            w,
        ) || came_between(db, reads[i], db.txns[id].snapshot, w)) == db.changed_by(
            reads[i],
            db.txns[id].snapshot,
            w,
        ) by {
            assert(db.read_ok(reads[i]));
            lemma_put_there(db, reads[i], w);
            lemma_came_between(db, reads[i], db.txns[id].snapshot, w);
        }
        if wrote_over(db, id, w) {
            let i = choose|i: int|
                #![trigger reads[i]]
                0 <= i < reads.len() && (put_there(db, reads[i], w) || came_between(
                    db,
                    reads[i],
                    db.txns[id].snapshot,
                    w,
                ));
            assert(db.changed_by(reads[i], db.txns[id].snapshot, w));
        }
        if db.overwriters(id).contains(w) {
            let i = choose|i: int|
                0 <= i < reads.len() && db.changed_by(
                    #[trigger] reads[i],
                    db.txns[id].snapshot,
                    w,
                );
            let z = reads[i];
        }
    }
}

pub proof fn lemma_still_matters<T: Versioned>(db: DbView<T>, id: u64, r: u64)
    requires
        db.inv(),
        db.txns.contains_key(id),
    ensures
        still_matters(db, r) <==> !crate::ssi::expired(db.states, r, gc_watermark(db.clock)),
{
    let g = gc_watermark(db.clock);
    lemma_gc_watermark_bounds(db);
    crate::keep::lemma_pinned(db, id);
    assert(db.clock.is_active(g));
    let s = choose|s: int|
        0 <= s < db.clock.active.len() && #[trigger] db.clock.active[s].contains(g);
    let holders = crate::state::holders(db.txns, s, g);
    assert(db.clock.active[s].count(g) == holders.len());
    assert(exists|x: u64| holders.contains(x)) by {
        if forall|x: u64| !holders.contains(x) {
            assert(holders =~= Set::empty());
        }
    }
    let x = choose|x: u64| holders.contains(x);
    assert(db.txns.contains_key(x) && db.txns[x].snapshot == g);
}

proof fn lemma_scanned_for<T: Versioned>(tv: TableView<T>, k: Seq<u8>, id: u64, r: u64, now: u64)
    requires
        tv.sound(now),
        now < FOREVER,
        tv.slots[k].lock == id,
        id != 0,
    ensures
        scanned_for(tv, k, r) <==> watched(tv, k, r),
{
    let slot = tv.slots[k];
    assert(slot.ok_by(now));
    lemma_settled(slot.chain);
    let n = settled(slot.chain) as int;
    assert forall|i: int| #[trigger] at_stake(slot, i) <==> n - 1 <= i < slot.chain.len() && 0
        <= i by {
        if 0 <= i < n - 1 {
            assert(slot.chain[i].end == slot.chain[i + 1].begin);
            assert(slot.chain[i + 1].begin < FOREVER);
        }
        if 0 <= i < slot.chain.len() {
            let v = slot.chain[i];
        }
    }
    if scanned_for(tv, k, r) {
        let (i, j) = choose|i: int, j: int|
            #![trigger slot.chain[i], tv.locks[j]]
            at_stake(slot, i) && held(slot.chain[i]) is Some && 0 <= j < tv.locks.len()
                && tv.locks[j].0 == r && meets(*tv.locks[j].1, held(slot.chain[i])->Some_0);
        law_filters_let_through_what_meets_them(inside(tv.locks[j].1), held(slot.chain[i])->Some_0);
        assert(watches(tv.locks, r, *slot.chain[i].value->Some_0));
    }
    if watched(tv, k, r) {
        let i = choose|i: int|
            n - 1 <= i < slot.chain.len() && 0 <= i && (#[trigger] slot.chain[i]).value is Some
                && watches(tv.locks, r, *slot.chain[i].value->Some_0);
        let x = *slot.chain[i].value->Some_0;
        let j = choose|j: int|
            0 <= j < tv.locks.len() && (#[trigger] tv.locks[j]).0 == r && crate::filter::passes(
                *tv.locks[j].1,
                x,
            );
        law_filters_let_through_what_meets_them(inside(tv.locks[j].1), x);
        assert(at_stake(slot, i) && meets(*tv.locks[j].1, held(slot.chain[i])->Some_0));
    }
}

pub proof fn lemma_has_read<T: Versioned>(db: DbView<T>, id: u64)
    requires
        db.inv(),
        db.txns.contains_key(id),
    ensures
        is_writing(db, id) <==> db.wrote(id),
        forall|r: u64| #[trigger]
            has_read(db, id, r) <==> db.overwritten_readers(id, db.states_outgoing(id)).contains(r),
{
    let states = db.states_outgoing(id);
    assert(db.txn_ok(id));
    if is_writing(db, id) {
        let (t, k) = choose|t: int, k: Seq<u8>|
            #![trigger db.tables[t].slots[k]]
            0 <= t < db.tables.len() && db.tables[t].slots[k].lock == id;
        assert(db.tables[t].written_by(id));
    }
    if db.wrote(id) {
        let t = choose|t: int| 0 <= t < db.tables.len() && #[trigger] db.tables[t].written_by(id);
        let k = choose|k: Seq<u8>| (#[trigger] db.tables[t].slots[k]).lock == id;
        let z = db.tables[t].slots[k];
    }
    assert forall|r: u64| #[trigger] has_read(db, id, r) <==> db.overwritten_readers(
        id,
        states,
    ).contains(r) by {
        lemma_still_matters(db, id, r);
        assert(crate::ssi::expired(states, r, gc_watermark(db.clock)) == crate::ssi::expired(
            db.states,
            r,
            gc_watermark(db.clock),
        ) || r == id);
        if has_read(db, id, r) {
            let (t, k) = choose|t: int, k: Seq<u8>|
                #![trigger db.tables[t].slots[k]]
                0 <= t < db.tables.len() && db.tables[t].slots[k].lock == id && (
                db.tables[t].slots[k].readers.contains(r) || scanned_for(db.tables[t], k, r));
            assert(db.tables[t].sound(db.clock.watermark));
            lemma_scanned_for(db.tables[t], k, id, r, db.clock.watermark);
            assert(crate::state::overwrites(db.tables[t], k, id, r));
            assert(db.read_under(id, t, r));
        }
        if db.overwritten_readers(id, states).contains(r) {
            let t = choose|t: int| 0 <= t < db.tables.len() && #[trigger] db.read_under(id, t, r);
            let k = choose|k: Seq<u8>| #[trigger]
                crate::state::overwrites(db.tables[t], k, id, r);
            assert(db.tables[t].sound(db.clock.watermark));
            lemma_scanned_for(db.tables[t], k, id, r, db.clock.watermark);
            let z = db.tables[t].slots[k];
        }
    }
}

proof fn lemma_outcome<T: Versioned>(db: DbView<T>, id: u64)
    requires
        db.inv(),
        db.txns.contains_key(id),
    ensures
        db.commit_error(id) == if must_fail(db, id) {
            Some(Error::SerializationFailure)
        } else {
            None
        },
{
    assert(db.txn_ok(id));
    lemma_wrote_over(db, id);
    lemma_has_read(db, id);
    let states = db.states_outgoing(id);
    if db.needs_validation(id) {
        assert(states.contains_key(id));
        if db.past_saving(id) {
            let w = choose|w: u64| #[trigger]
                db.overwriters(id).contains(w) && db.beyond_abort(w);
            assert(wrote_over(db, id, w));
        } else if misled(db, id) {
            assert forall|w: u64| #[trigger] wrote_over(db, id, w) implies !(
            db.states.contains_key(w) && db.states[w].committed_at != 0
                && db.states[w].out_conflict) by {
                assert(db.overwriters(id).contains(w));
                assert(!db.beyond_abort(w));
            }
            assert(db.marked(id) == db.overwriters(id)) by {
                assert forall|i: int, k: Seq<u8>, w: u64|
                    0 <= i < db.txns[id].reads.len() && #[trigger] db.replaced_at(
                        db.txns[id].reads[i],
                        k,
                        w,
                    ) implies !db.beyond_abort(w) by {
                    assert(db.replaced_by(db.txns[id].reads[i], w));
                    assert(db.changed_by(db.txns[id].reads[i], db.txns[id].snapshot, w));
                    assert(db.overwriters(id).contains(w));
                }
            }
            assert(states[id].in_conflict <==> db.states[id].in_conflict || wrote_over(
                db,
                id,
                id,
            ));
        }
        let readers = db.overwritten_readers(id, states);
        if exists|r: u64| #[trigger] has_read(db, id, r) {
            let r = choose|r: u64| #[trigger] has_read(db, id, r);
            assert(readers.contains(r));
            assert(!readers.is_empty());
        } else {
            assert forall|r: u64| !readers.contains(r) by {
                assert(!has_read(db, id, r));
            }
            assert(readers =~= Set::empty());
        }
    }
}

/// A commit is refused if and only if there are conflicts in both directions. One
/// alone is no reason, nor is a read or a scan that is not for anything written.
pub proof fn law_commits_fail_only_on_conflicts_in_both_directions<
    T: Versioned,
    I: IsolationLevel,
>(tx: Transaction<I>)
    ensures
        forall|db: &mut Database<T>, r: Result<()>| #[trigger]
            call_ensures(Transaction::<I>::commit::<T>, (tx, db), r) && db.wf() ==> (if
            !db@.txns.contains_key(tx.who()) {
                r == Err::<(), Error>(Error::Aborted) && final(db)@ == db@
            } else if must_fail(db@, tx.who()) {
                r == Err::<(), Error>(Error::SerializationFailure)
            } else {
                r is Ok
            }),
{
    assert forall|db: &mut Database<T>, r: Result<()>| #[trigger]
        call_ensures(Transaction::<I>::commit::<T>, (tx, db), r) && db.wf() implies (if
        !db@.txns.contains_key(tx.who()) {
        r == Err::<(), Error>(Error::Aborted) && final(db)@ == db@
    } else if must_fail(db@, tx.who()) {
        r == Err::<(), Error>(Error::SerializationFailure)
    } else {
        r is Ok
    }) by {
        db.lemma_wf();
        if db@.txns.contains_key(tx.who()) {
            lemma_outcome(db@, tx.who());
        }
    }
}

// --- what is there afterwards ----------------------------------------------------

/// What there is of a record once `id` has ended: where `kept`, what `id` wrote
/// last, if it was writing the record; and otherwise what there was.
pub open spec fn left<T>(
    before: SlotView<T>,
    then: u64,
    after: SlotView<T>,
    now: u64,
    id: u64,
    kept: bool,
    found: Option<T>,
) -> bool {
    shown(after, now, NOBODY, found) <==> if kept && before.lock == id {
        found == held(before.chain[before.chain.len() - 1])
    } else {
        shown(before, then, NOBODY, found)
    }
}

/// From `a` to `b` the transaction `id` has ended. What it wrote is committed, all
/// of it at once, if `kept`, and is gone otherwise. It is writing nothing any more,
/// everyone else is still writing what they were, and nobody who is running is
/// shown anything else than before, unless it takes a fresh snapshot for every
/// statement: then it is shown what is committed.
pub open spec fn ended<T: Versioned>(a: DbView<T>, b: DbView<T>, id: u64, kept: bool) -> bool {
    &&& b.txns.dom() == a.txns.dom().remove(id)
    &&& forall|r: u64| #[trigger] b.txns.contains_key(r) ==> b.txns[r] == a.txns[r]
    &&& b.clock.watermark == a.clock.watermark + if kept {
        1int
    } else {
        0
    }
    &&& b.clock.config == a.clock.config && b.clock.issued == a.clock.issued
    &&& b.tables.len() == a.tables.len()
    &&& forall|t: int|
        0 <= t < a.tables.len() ==> (#[trigger] b.tables[t]).of == a.tables[t].of
            && b.tables[t].name == a.tables[t].name && b.tables[t].indexes == a.tables[t].indexes
            && b.tables[t].kept == a.tables[t].kept
    &&& forall|t: int, k: Seq<u8>|
        #![trigger b.tables[t].slots[k]]
        0 <= t < a.tables.len() ==> b.tables[t].slots[k].lock == if a.tables[t].slots[k].lock
            == id {
            0
        } else {
            a.tables[t].slots[k].lock
        }
    &&& forall|t: int, p: int, ik: Seq<u8>, r: u64|
        0 <= t < a.tables.len() && 0 <= p < a.tables[t].claims.len() ==> (
        #[trigger] b.tables[t].holds_claim(p, ik, r) <==> a.tables[t].holds_claim(p, ik, r) && r
            != id)
    &&& forall|t: int, k: Seq<u8>, found: Option<T>|
        0 <= t < a.tables.len() ==> #[trigger] left(
            a.tables[t].slots[k],
            a.clock.watermark,
            b.tables[t].slots[k],
            b.clock.watermark,
            id,
            kept,
            found,
        )
    &&& forall|t: int, k: Seq<u8>, r: u64, found: Option<T>|
        0 <= t < a.tables.len() && b.txns.contains_key(r) ==> (#[trigger] shown(
            b.tables[t].slots[k],
            as_of(b, r),
            r,
            found,
        ) <==> if b.txns[r].rules.refresh_snapshot_per_statement && b.tables[t].slots[k].lock != r {
            shown(b.tables[t].slots[k], b.clock.watermark, NOBODY, found)
        } else {
            shown(a.tables[t].slots[k], as_of(a, r), r, found)
        })
}

/// What is shown to nobody in particular is what is committed.
proof fn lemma_shown_to_nobody<T: Versioned>(db: DbView<T>, t: int, k: Seq<u8>, found: Option<T>)
    requires
        db.inv(),
        0 <= t < db.tables.len(),
    ensures
        shown(db.tables[t].slots[k], db.clock.watermark, NOBODY, found) <==> found
            == committed_record(db, t, k, db.clock.watermark),
{
    let slot = db.tables[t].slots[k];
    let now = db.clock.watermark;
    assert(db.tables[t].sound(now));
    assert(slot.ok_by(now));
    lemma_lasting(slot, now, NOBODY, now);
    if shown(slot, now, NOBODY, found) {
        lemma_one_shown(slot, now, NOBODY, found, committed_record(db, t, k, now));
    }
}

proof fn lemma_shown_to<T: Versioned>(db: DbView<T>, r: u64, t: int, k: Seq<u8>, found: Option<T>)
    requires
        db.inv(),
        db.txns.contains_key(r),
        0 <= t < db.tables.len(),
    ensures
        shown(db.tables[t].slots[k], as_of(db, r), r, found) <==> found == db.record_at(r, t, k),
{
    lemma_shown(db, r, t, k);
    if shown(db.tables[t].slots[k], as_of(db, r), r, found) {
        lemma_one_shown(db.tables[t].slots[k], as_of(db, r), r, found, db.record_at(r, t, k));
    }
}

/// Whoever takes a fresh snapshot and does not write a record is shown what is
/// committed.
proof fn lemma_shown_fresh<T: Versioned>(db: DbView<T>, r: u64, t: int, k: Seq<u8>)
    requires
        db.inv(),
        db.txns.contains_key(r),
        0 <= t < db.tables.len(),
        db.txns[r].rules.refresh_snapshot_per_statement,
        db.tables[t].slots[k].lock != r,
    ensures
        db.record_at(r, t, k) == committed_record(db, t, k, db.clock.watermark),
{
    let slot = db.tables[t].slots[k];
    assert(db.tables[t].sound(db.clock.watermark));
    assert(slot.ok_by(db.clock.watermark));
    lemma_read_other(slot, db.clock.watermark, r);
    lemma_read_other(slot, db.clock.watermark, NOBODY);
}

/// What is shown follows from what is committed and what each transaction sees.
proof fn lemma_ended<T: Versioned>(a: DbView<T>, b: DbView<T>, id: u64, kept: bool)
    requires
        a.inv(),
        b.inv(),
        a.txns.contains_key(id),
        b.txns =~= a.txns.remove(id),
        b.clock.watermark == a.clock.watermark + if kept {
            1int
        } else {
            0
        },
        b.clock.config == a.clock.config,
        b.clock.issued == a.clock.issued,
        b.tables.len() == a.tables.len(),
        forall|t: int|
            0 <= t < a.tables.len() ==> (#[trigger] b.tables[t]).of == a.tables[t].of
                && b.tables[t].name == a.tables[t].name && b.tables[t].indexes
                == a.tables[t].indexes && b.tables[t].kept == a.tables[t].kept,
        forall|t: int, k: Seq<u8>|
            #![trigger b.tables[t].slots[k]]
            0 <= t < a.tables.len() ==> b.tables[t].slots[k].lock == (if a.tables[t].slots[k].lock
                == id {
                0
            } else {
                a.tables[t].slots[k].lock
            }),
        forall|t: int, p: int, ik: Seq<u8>, r: u64|
            0 <= t < a.tables.len() && 0 <= p < a.tables[t].claims.len() ==> (
            #[trigger] b.tables[t].holds_claim(p, ik, r) <==> a.tables[t].holds_claim(p, ik, r)
                && r != id),
        forall|t: int, k: Seq<u8>|
            0 <= t < a.tables.len() ==> #[trigger] committed_record(b, t, k, b.clock.watermark)
                == if kept && a.tables[t].slots[k].lock == id {
                held(a.tables[t].slots[k].chain.last())
            } else {
                committed_record(a, t, k, a.clock.watermark)
            },
        forall|r: u64| #[trigger]
            b.txns.contains_key(r) && !b.txns[r].rules.refresh_snapshot_per_statement
                ==> same_view(a, b, r),
        forall|t: int, k: Seq<u8>|
            #![trigger b.tables[t].slots[k]]
            0 <= t < a.tables.len() && a.tables[t].slots[k].lock != id && a.tables[t].slots[k].lock
                != 0 ==> b.tables[t].slots[k].chain == a.tables[t].slots[k].chain,
    ensures
        ended(a, b, id, kept),
{
    assert(b.txns.dom() =~= a.txns.dom().remove(id));
    assert forall|t: int, k: Seq<u8>, found: Option<T>|
        0 <= t < a.tables.len() implies #[trigger] left(
        a.tables[t].slots[k],
        a.clock.watermark,
        b.tables[t].slots[k],
        b.clock.watermark,
        id,
        kept,
        found,
    ) by {
        lemma_shown_to_nobody(a, t, k, found);
        lemma_shown_to_nobody(b, t, k, found);
        let x = committed_record(b, t, k, b.clock.watermark);
    }
    assert forall|t: int, k: Seq<u8>, r: u64, found: Option<T>|
        0 <= t < a.tables.len() && b.txns.contains_key(r) implies (#[trigger] shown(
        b.tables[t].slots[k],
        as_of(b, r),
        r,
        found,
    ) <==> if b.txns[r].rules.refresh_snapshot_per_statement && b.tables[t].slots[k].lock != r {
        shown(b.tables[t].slots[k], b.clock.watermark, NOBODY, found)
    } else {
        shown(a.tables[t].slots[k], as_of(a, r), r, found)
    }) by {
        lemma_shown_to(b, r, t, k, found);
        lemma_shown_to(a, r, t, k, found);
        assert(a.txn_ok(r));
        if b.txns[r].rules.refresh_snapshot_per_statement {
            if b.tables[t].slots[k].lock != r {
                lemma_shown_fresh(b, r, t, k);
                lemma_shown_to_nobody(b, t, k, found);
            } else {
                let slot = b.tables[t].slots[k];
                assert(slot.chain == a.tables[t].slots[k].chain);
                assert(b.txn_ok(r));
                assert(a.tables[t].sound(a.clock.watermark));
                assert(b.tables[t].sound(b.clock.watermark));
                assert(a.tables[t].slots[k].ok_by(a.clock.watermark));
                assert(slot.ok_by(b.clock.watermark));
                lemma_read_own(slot, b.clock.watermark, r);
                lemma_read_own(a.tables[t].slots[k], a.clock.watermark, r);
            }
        } else {
            assert(same_view(a, b, r));
            assert(b.record_at(r, t, k) == a.record_at(r, t, k));
        }
    }
}

proof fn lemma_kept<T: Versioned>(db: DbView<T>, d: DbView<T>, id: u64)
    requires
        db.inv(),
        db.txns.contains_key(id),
        db.clock.next < FOREVER,
        d == db || (d == db.detected(id).0 && db.txns[id].rules.validates_reads),
        db.after_commit(id) == d.committed(id),
    ensures
        ended(db, db.after_commit(id), id, true),
{
    let b = d.committed(id);
    assert(db.txn_ok(id));
    if d != db {
        lemma_detected_inv(db, id);
    }
    assert(d.txns.contains_key(id));
    assert forall|t: int, k: Seq<u8>|
        #![trigger d.tables[t].slots[k]]
        0 <= t < db.tables.len() implies d.tables[t].slots[k].chain == db.tables[t].slots[k].chain
        && d.tables[t].slots[k].lock == db.tables[t].slots[k].lock by {
        if d != db {
            assert(quieter(db.tables[t], d.tables[t]));
        }
    }
    assert forall|t: int| 0 <= t < db.tables.len() implies (#[trigger] d.tables[t]).claims
        == db.tables[t].claims by {
        if d != db {
            assert(quieter(db.tables[t], d.tables[t]));
        }
    }
    lemma_stamped_inv(d, id);
    lemma_gc_watermark_bounds(d.stamped(id));
    lemma_committed_inv(d, id);
    assert forall|t: int, k: Seq<u8>|
        0 <= t < db.tables.len() implies #[trigger] committed_record(b, t, k, b.clock.watermark)
        == if db.tables[t].slots[k].lock == id {
        held(db.tables[t].slots[k].chain.last())
    } else {
        committed_record(db, t, k, db.clock.watermark)
    } by {
        let now = db.clock.watermark;
        let slot = d.tables[t].slots[k];
        law_commits_are_atomic(d, id, t, k, d.clock.next);
        assert(d.tables[t].sound(now));
        assert(slot.ok_by(now));
        lemma_read_latest(slot, now, now);
        lemma_read_latest(slot, now, d.clock.next);
        let z = db.tables[t].slots[k];
    }
    assert forall|r: u64| #[trigger]
        b.txns.contains_key(r) && !b.txns[r].rules.refresh_snapshot_per_statement implies same_view(
        db,
        b,
        r,
    ) by {
        law_commits_leave_snapshots_alone(db, id, r);
    }
    assert forall|t: int, k: Seq<u8>|
        #![trigger b.tables[t].slots[k]]
        0 <= t < db.tables.len() implies b.tables[t].slots[k].lock == (if
    db.tables[t].slots[k].lock == id {
        0
    } else {
        db.tables[t].slots[k].lock
    }) && (db.tables[t].slots[k].lock != id && db.tables[t].slots[k].lock != 0
        ==> b.tables[t].slots[k].chain == db.tables[t].slots[k].chain) by {
        let z = d.tables[t].slots[k];
    }
    assert forall|t: int, p: int, ik: Seq<u8>, r: u64|
        0 <= t < db.tables.len() && 0 <= p < db.tables[t].claims.len() implies (
    #[trigger] b.tables[t].holds_claim(p, ik, r) <==> db.tables[t].holds_claim(p, ik, r) && r
        != id) by {
        assert(d.tables[t].claims == db.tables[t].claims);
    }
    lemma_ended(db, b, id, true);
}

proof fn lemma_dropped<T: Versioned>(db: DbView<T>, d: DbView<T>, id: u64)
    requires
        db.inv(),
        db.txns.contains_key(id),
        d == db || (d == db.detected(id).0 && db.txns[id].rules.validates_reads),
    ensures
        ended(db, d.rolled_back(id), id, false),
{
    let b = d.rolled_back(id);
    assert(db.txn_ok(id));
    if d != db {
        lemma_detected_inv(db, id);
    }
    assert forall|t: int, k: Seq<u8>|
        #![trigger d.tables[t].slots[k]]
        0 <= t < db.tables.len() implies d.tables[t].slots[k].chain == db.tables[t].slots[k].chain
        && d.tables[t].slots[k].lock == db.tables[t].slots[k].lock by {
        if d != db {
            assert(quieter(db.tables[t], d.tables[t]));
        }
    }
    assert forall|t: int| 0 <= t < db.tables.len() implies (#[trigger] d.tables[t]).claims
        == db.tables[t].claims by {
        if d != db {
            assert(quieter(db.tables[t], d.tables[t]));
        }
    }
    assert(d.txn_ok(id));
    lemma_rolled_back_inv(d, id);
    assert forall|t: int, k: Seq<u8>|
        0 <= t < db.tables.len() implies #[trigger] committed_record(b, t, k, b.clock.watermark)
        == committed_record(db, t, k, db.clock.watermark) by {
        let now = db.clock.watermark;
        let slot = d.tables[t].slots[k];
        assert(d.tables[t].sound(now));
        assert(slot.ok_by(now));
        if slot.lock == id {
            lemma_aborted(slot, now);
            lemma_read_other(slot, now, NOBODY);
            lemma_read_other(slot.aborted(), now, NOBODY);
            assert(rolled_back(slot.aborted().chain) =~= rolled_back(slot.chain));
        }
    }
    assert forall|r: u64| #[trigger]
        b.txns.contains_key(r) && !b.txns[r].rules.refresh_snapshot_per_statement implies same_view(
        db,
        b,
        r,
    ) by {
        assert(forall|t: int, k: Seq<u8>|
            0 <= t < db.tables.len() ==> #[trigger] d.record_at(r, t, k) == db.record_at(r, t, k));
        law_aborts_are_invisible(d, id, r);
    }
    assert forall|t: int, k: Seq<u8>|
        #![trigger b.tables[t].slots[k]]
        0 <= t < db.tables.len() implies b.tables[t].slots[k].lock == (if
    db.tables[t].slots[k].lock == id {
        0
    } else {
        db.tables[t].slots[k].lock
    }) && (db.tables[t].slots[k].lock != id && db.tables[t].slots[k].lock != 0
        ==> b.tables[t].slots[k].chain == db.tables[t].slots[k].chain) by {
        let z = d.tables[t].slots[k];
    }
    assert forall|t: int, p: int, ik: Seq<u8>, r: u64|
        0 <= t < db.tables.len() && 0 <= p < db.tables[t].claims.len() implies (
    #[trigger] b.tables[t].holds_claim(p, ik, r) <==> db.tables[t].holds_claim(p, ik, r) && r
        != id) by {
        assert(d.tables[t].claims == db.tables[t].claims);
    }
    lemma_ended(db, b, id, false);
}

/// A commit that succeeds commits all that the transaction wrote, and nothing else
/// changes for anyone. One that is refused leaves nothing.
pub proof fn law_commits_keep_what_was_written<T: Versioned, I: IsolationLevel>(tx: Transaction<I>)
    ensures
        forall|db: &mut Database<T>, r: Result<()>| #[trigger]
            call_ensures(Transaction::<I>::commit::<T>, (tx, db), r) && db.wf()
                && db@.txns.contains_key(tx.who()) && db@.clock.next < FOREVER ==> ended(
                db@,
                final(db)@,
                tx.who(),
                r is Ok,
            ),
{
    assert forall|db: &mut Database<T>, r: Result<()>| #[trigger]
        call_ensures(Transaction::<I>::commit::<T>, (tx, db), r) && db.wf()
            && db@.txns.contains_key(tx.who()) && db@.clock.next < FOREVER implies ended(
        db@,
        final(db)@,
        tx.who(),
        r is Ok,
    ) by {
        db.lemma_wf();
        let id = tx.who();
        if !db@.needs_validation(id) {
            lemma_kept(db@, db@, id);
        } else if db@.detected(id).1 {
            lemma_kept(db@, db@.detected(id).0, id);
        } else {
            lemma_dropped(db@, db@.detected(id).0, id);
        }
    }
}

/// An abort leaves nothing of what the transaction wrote, and changes nothing for
/// anyone. Aborting one that is not running does nothing.
pub proof fn law_aborts_drop_what_was_written<T: Versioned, I: IsolationLevel>(tx: Transaction<I>)
    ensures
        forall|db: &mut Database<T>| #[trigger]
            call_ensures(Transaction::<I>::abort::<T>, (tx, db), ()) && db.wf() ==> (if
            db@.txns.contains_key(tx.who()) {
                ended(db@, final(db)@, tx.who(), false)
            } else {
                final(db)@ == db@
            }),
{
    assert forall|db: &mut Database<T>| #[trigger]
        call_ensures(Transaction::<I>::abort::<T>, (tx, db), ()) && db.wf() implies (if
        db@.txns.contains_key(tx.who()) {
        ended(db@, final(db)@, tx.who(), false)
    } else {
        final(db)@ == db@
    }) by {
        db.lemma_wf();
        if db@.txns.contains_key(tx.who()) {
            lemma_dropped(db@, db@, tx.who());
        }
    }
}

/// From `a` to `b` nothing has happened but that a transaction `id` has begun under
/// these rules, with an id from this slot. It reads as of the last commit.
pub open spec fn only_began<T: Versioned>(
    a: DbView<T>,
    b: DbView<T>,
    slot: int,
    id: u64,
    rules: Rules,
) -> bool {
    &&& 0 < id < IN_FLIGHT
    &&& b.clock.config == a.clock.config && b.clock.issued.len() == a.clock.issued.len()
    &&& forall|i: int|
        0 <= i < a.clock.issued.len() ==> #[trigger] b.clock.issued[i] == a.clock.issued[i] + if i
            == slot {
            1int
        } else {
            0
        }
    &&& !a.txns.contains_key(id)
    &&& b.txns.dom() == a.txns.dom().insert(id)
    &&& forall|r: u64| #[trigger] a.txns.contains_key(r) ==> b.txns[r] == a.txns[r]
    &&& b.txns[id].snapshot == a.clock.watermark
    &&& b.txns[id].rules == rules
    &&& b.txns[id].reads.len() == 0
    &&& b.tables == a.tables
    &&& b.clock.watermark == a.clock.watermark
    &&& b.clock.next == a.clock.next
    &&& b.gc_hint == a.gc_hint
    &&& forall|r: u64| r != id ==> (#[trigger] b.states.contains_key(r) <==> a.states.contains_key(
        r,
    )) && b.states[r] == a.states[r]
    &&& rules.validates_reads ==> b.states.contains_key(id) && b.states[id] == (TxnState {
        id: TxnId(id),
        snapshot: Timestamp(a.clock.watermark),
        out_conflict: false,
        in_conflict: false,
        committed_at: 0,
        aborted: false,
    })
}

/// A transaction begins under an id that nobody who is running has, at the level
/// asked for, and reads as of the last commit.
pub proof fn law_transactions_begin_at_the_last_commit<T: Versioned, I: IsolationLevel>(slot: usize)
    ensures
        forall|db: &mut Database<T>, tx: Transaction<I>| #[trigger]
            call_ensures(Database::<T>::begin_on::<I>, (db, slot), tx) && db.wf() && slot < SHARDS
                && db@.clock.issued[slot as int] < IDS_PER_SHARD ==> only_began(
                db@,
                final(db)@,
                slot as int,
                tx.who(),
                Rules {
                    refresh_snapshot_per_statement: I::REFRESH_SNAPSHOT_PER_STATEMENT,
                    first_committer_wins: I::FIRST_COMMITTER_WINS,
                    validates_reads: I::VALIDATES_READS,
                },
            ) && tx.reads_at() == db@.clock.watermark,
        forall|db: &mut Database<T>, tx: Transaction<I>| #[trigger]
            call_ensures(Database::<T>::begin_with::<I>, (db,), tx) && db.wf()
                && db@.clock.issued[0] < IDS_PER_SHARD ==> only_began(
                db@,
                final(db)@,
                0,
                tx.who(),
                Rules {
                    refresh_snapshot_per_statement: I::REFRESH_SNAPSHOT_PER_STATEMENT,
                    first_committer_wins: I::FIRST_COMMITTER_WINS,
                    validates_reads: I::VALIDATES_READS,
                },
            ) && tx.reads_at() == db@.clock.watermark,
        forall|db: &mut Database<T>, tx: Transaction<Snapshot>| #[trigger]
            call_ensures(Database::<T>::begin, (db,), tx) && db.wf() && db@.clock.issued[0]
                < IDS_PER_SHARD ==> only_began(
                db@,
                final(db)@,
                0,
                tx.who(),
                Rules {
                    refresh_snapshot_per_statement: false,
                    first_committer_wins: true,
                    validates_reads: false,
                },
            ) && tx.reads_at() == db@.clock.watermark,
{
    assert forall|db: &mut Database<T>, tx: Transaction<I>| #[trigger]
        call_ensures(Database::<T>::begin_on::<I>, (db, slot), tx) && db.wf() && slot < SHARDS
            && db@.clock.issued[slot as int] < IDS_PER_SHARD implies only_began(
        db@,
        final(db)@,
        slot as int,
                tx.who(),
        Rules {
            refresh_snapshot_per_statement: I::REFRESH_SNAPSHOT_PER_STATEMENT,
            first_committer_wins: I::FIRST_COMMITTER_WINS,
            validates_reads: I::VALIDATES_READS,
        },
    ) && tx.reads_at() == db@.clock.watermark by {
        db.lemma_wf();
        lemma_began(db@, slot as int, rules_of::<I>());
    }
    assert forall|db: &mut Database<T>, tx: Transaction<I>| #[trigger]
        call_ensures(Database::<T>::begin_with::<I>, (db,), tx) && db.wf()
            && db@.clock.issued[0] < IDS_PER_SHARD implies only_began(
        db@,
        final(db)@,
        0,
                tx.who(),
        Rules {
            refresh_snapshot_per_statement: I::REFRESH_SNAPSHOT_PER_STATEMENT,
            first_committer_wins: I::FIRST_COMMITTER_WINS,
            validates_reads: I::VALIDATES_READS,
        },
    ) && tx.reads_at() == db@.clock.watermark by {
        db.lemma_wf();
        lemma_began(db@, 0, rules_of::<I>());
    }
    assert forall|db: &mut Database<T>, tx: Transaction<Snapshot>| #[trigger]
        call_ensures(Database::<T>::begin, (db,), tx) && db.wf() && db@.clock.issued[0]
            < IDS_PER_SHARD implies only_began(
        db@,
        final(db)@,
        0,
                tx.who(),
        Rules {
            refresh_snapshot_per_statement: false,
            first_committer_wins: true,
            validates_reads: false,
        },
    ) && tx.reads_at() == db@.clock.watermark by {
        db.lemma_wf();
        law_levels_differ_only_in_their_constants();
        lemma_began(db@, 0, rules_of::<Snapshot>());
    }
}

proof fn lemma_began<T: Versioned>(db: DbView<T>, slot: int, rules: Rules)
    requires
        db.inv(),
        0 <= slot < SHARDS,
        db.clock.issued[slot] < IDS_PER_SHARD,
    ensures
        only_began(
            db,
            db.after_begin(slot, rules),
            slot,
            nth_id(slot, db.clock.issued[slot] as int) as u64,
            rules,
        ),
        nth_id(slot, db.clock.issued[slot] as int) as u64 == nth_id(
            slot,
            db.clock.issued[slot] as int,
        ),
{
    lemma_fresh(db, slot);
    lemma_begin_inv(db, slot, rules);
    let b = db.after_begin(slot, rules);
    let id = nth_id(slot, db.clock.issued[slot] as int) as u64;
    assert(b.txns.contains_key(id));
    assert(b.txn_ok(id));
    assert(b.txns.dom() =~= db.txns.dom().insert(id));
}

/// A transaction tells under which id it runs and as of when it reads.
pub proof fn law_transactions_tell_who_they_are<I: IsolationLevel>(tx: Transaction<I>)
    ensures
        forall|id: TxnId| #[trigger]
            call_ensures(Transaction::<I>::id, (&tx,), id) ==> id.0 == tx.who(),
        forall|ts: Timestamp| #[trigger]
            call_ensures(Transaction::<I>::snapshot, (&tx,), ts) ==> ts.0 == tx.reads_at(),
{
}

} // verus!
