//! What the end of a transaction leaves behind besides records: conflicts on
//! record, read locks, and what has been reclaimed.

use std::sync::Arc;

use vstd::prelude::*;

use crate::chain::lemma_removed;
use crate::database::transaction::Transaction;
use crate::database::Database;
use crate::error::Result;
use crate::filter::Filter;
use crate::isolation::IsolationLevel;
use crate::keep::{
    lemma_committed_inv, lemma_detected_inv, lemma_gc_watermark_bounds, lemma_stamped_inv, quieter,
};
use crate::order::lex_lt;
use crate::outcomes::{
    agrees, doomed, has_read, in_question, incoming, lemma_has_read, lemma_outdated,
    lemma_still_matters, lemma_wrote_over, misled, outgoing, still_matters, wrote_over,
};
use crate::promises::{
    comes_across, lasts, lemma_lasting, lemma_observed_at, lemma_one_shown, shown,
};
use crate::slot::{lemma_settled, live_value, pruned, read_at, settled, SlotView, Version};
use crate::slotmap::home;
use crate::ssi::TxnState;
use crate::state::{differ, gc_watermark, holders, order_key, sooner, DbView, ReadView, ScopeView};
use crate::table::TableView;
use crate::time::{TxnId, FOREVER, IN_FLIGHT, NOBODY};
use crate::versioned::Versioned;

verus! {

// --- the oldest snapshot -----------------------------------------------------------

/// Whether `ts` is the oldest snapshot that a running transaction reads at, or the
/// last commit if none is running.
pub open spec fn oldest<T: Versioned>(db: DbView<T>, ts: u64) -> bool {
    &&& forall|x: u64| #[trigger] db.txns.contains_key(x) ==> ts <= db.txns[x].snapshot
    &&& ts == db.clock.watermark && (forall|x: u64| !#[trigger] db.txns.contains_key(x)) || exists|
        x: u64,
    | #[trigger]
        db.txns.contains_key(x) && db.txns[x].snapshot == ts
}

/// What the clock keeps of snapshots is the oldest one.
pub proof fn lemma_oldest<T: Versioned>(db: DbView<T>)
    requires
        db.inv(),
    ensures
        oldest(db, gc_watermark(db.clock)),
        gc_watermark(db.clock) <= db.clock.watermark,
{
    let g = gc_watermark(db.clock);
    lemma_gc_watermark_bounds(db);
    if db.clock.is_active(g) {
        let s = choose|s: int|
            0 <= s < db.clock.active.len() && #[trigger] db.clock.active[s].contains(g);
        let who = holders(db.txns, s, g);
        assert(db.clock.active[s].count(g) == who.len());
        assert(exists|x: u64| who.contains(x)) by {
            if forall|x: u64| !who.contains(x) {
                assert(who =~= Set::empty());
            }
        }
        let x = choose|x: u64| who.contains(x);
        assert(db.txns.contains_key(x) && db.txns[x].snapshot == g);
    } else {
        assert forall|x: u64| !#[trigger] db.txns.contains_key(x) by {
            if db.txns.contains_key(x) {
                crate::keep::lemma_pinned(db, x);
            }
        }
    }
}

// --- conflicts on record -----------------------------------------------------------

/// Whether nobody who is running can conflict any more with one of which this is
/// kept: it aborted, or committed before any of them began.
pub open spec fn settled_for_all<T: Versioned>(db: DbView<T>, s: TxnState) -> bool {
    s.aborted || (s.committed_at != 0 && s.committed_at <= db.clock.watermark && forall|x: u64|
        #[trigger] db.txns.contains_key(x) ==> s.committed_at <= db.txns[x].snapshot)
}

/// Whether `w` wrote what is there now of the record under `k`, about which this read
/// does not agree.
pub open spec fn put_at<T: Versioned>(
    db: DbView<T>,
    read: ReadView<T>,
    k: Seq<u8>,
    w: u64,
) -> bool {
    !agrees(db, read, k) && exists|i: int|
        0 <= i < db.tables[read.table].slots[k].chain.len() && lasts(
            #[trigger] db.tables[read.table].slots[k].chain[i],
            db.clock.watermark,
        ) && db.tables[read.table].slots[k].chain[i].writer == Some(TxnId(w))
}

/// Whether this read comes upon the record under `k` now.
pub open spec fn finds<T: Versioned>(db: DbView<T>, read: ReadView<T>, k: Seq<u8>) -> bool {
    exists|i: int|
        0 <= i < db.tables[read.table].slots[k].chain.len() && #[trigger] comes_across(
            read.scope,
            k,
            db.tables[read.table].slots[k].chain[i],
            db.clock.watermark,
        )
}

/// The key by which a scan of an index goes through a record as it was at `s`. Other
/// reads go by primary keys alone.
pub open spec fn goes_by<T: Versioned>(slot: SlotView<T>, scope: ScopeView<T>, s: u64) -> Seq<u8> {
    match scope {
        ScopeView::Row(_) => Seq::empty(),
        ScopeView::Rows(filter) => match *filter {
            Filter::Range { position, .. } => if exists|x: T| #[trigger]
                shown(slot, s, NOBODY, Some(x)) {
                let x = choose|x: T| #[trigger] shown(slot, s, NOBODY, Some(x));
                x.spec_index_key(position as int)
            } else {
                Seq::empty()
            },
            _ => Seq::empty(),
        },
    }
}

/// Whether a read, repeated, comes to the record under `j` before that under `k`: first
/// to those that it finds now, then to those that it found before and finds no more.
pub open spec fn comes_first<T: Versioned>(
    db: DbView<T>,
    read: ReadView<T>,
    since: u64,
    j: Seq<u8>,
    k: Seq<u8>,
) -> bool {
    let slots = db.tables[read.table].slots;
    let now = db.clock.watermark;
    if finds(db, read, j) != finds(db, read, k) {
        finds(db, read, j)
    } else {
        let s = if finds(db, read, j) {
            now
        } else {
            since
        };
        let x = goes_by(slots[j], read.scope, s);
        let y = goes_by(slots[k], read.scope, s);
        if x != y {
            lex_lt(x, y)
        } else {
            lex_lt(j, k)
        }
    }
}

/// Whether `w` has committed, and something that it read was overwritten.
pub open spec fn too_late<T: Versioned>(db: DbView<T>, w: u64) -> bool {
    db.states.contains_key(w) && db.states[w].committed_at != 0 && db.states[w].out_conflict
}

/// Whether `id`, going through its reads again in order, comes to the record under `k`
/// of the `i`-th before anything that is too late to abort is behind it.
pub open spec fn still_going<T: Versioned>(db: DbView<T>, id: u64, i: int, k: Seq<u8>) -> bool {
    forall|m: int, j: Seq<u8>, w: u64|
        0 <= m < db.txns[id].reads.len() && #[trigger] put_at(db, db.txns[id].reads[m], j, w)
            && too_late(db, w) ==> !(m < i || (m == i && comes_first(
            db,
            db.txns[id].reads[m],
            db.txns[id].snapshot,
            j,
            k,
        )))
}

/// Whether `id` notices that `r` wrote over something it read: all who did are noticed,
/// unless what is there now was written by one that is too late to abort. That one is
/// then the last.
pub open spec fn notices<T: Versioned>(db: DbView<T>, id: u64, r: u64) -> bool {
    let reads = db.txns[id].reads;
    if exists|i: int, k: Seq<u8>, w: u64|
        0 <= i < reads.len() && #[trigger] put_at(db, reads[i], k, w) && too_late(db, w) {
        exists|i: int, k: Seq<u8>|
            0 <= i < reads.len() && #[trigger] put_at(db, reads[i], k, r) && still_going(
                db,
                id,
                i,
                k,
            )
    } else {
        wrote_over(db, id, r)
    }
}

/// Whether `id` goes on to look for who has read what it wrote: something that it read
/// was overwritten, and nothing is known yet that stops it.
pub open spec fn looks_on<T: Versioned>(db: DbView<T>, id: u64) -> bool {
    in_question(db, id) && !doomed(db, id) && outgoing(db, id) && !incoming(db, id)
}

/// What is on record about another transaction `r` once `id` has tried to commit. It
/// has an incoming conflict if it had one, or if `id` notices that it wrote over
/// something `id` read; and an outgoing one if it had one, or if `id` went on to look for
/// who has read what it wrote, and `r` had.
pub open spec fn on_record<T: Versioned>(
    a: DbView<T>,
    id: u64,
    r: u64,
    was: TxnState,
    now: TxnState,
) -> bool {
    &&& now.id == was.id && now.snapshot == was.snapshot
    &&& now.committed_at == was.committed_at && now.aborted == was.aborted
    &&& now.in_conflict <==> was.in_conflict || (in_question(a, id) && misled(a, id) && notices(
        a,
        id,
        r,
    ))
    &&& now.out_conflict <==> was.out_conflict || (looks_on(a, id) && has_read(a, id, r))
}

/// From `a` to `b` the transaction `id` has tried to commit, and has if `kept`. What
/// is on record about the others is what is known of them, and is forgotten when it
/// can matter to nobody, at every 128th commit.
pub open spec fn recorded<T: Versioned>(a: DbView<T>, b: DbView<T>, id: u64, kept: bool) -> bool {
    let clean = kept && b.clock.watermark % 128 == 0;
    &&& forall|r: u64| #[trigger]
        b.states.contains_key(r) && r != id ==> a.states.contains_key(r) && on_record(
            a,
            id,
            r,
            a.states[r],
            b.states[r],
        )
    &&& forall|r: u64|
        #![trigger a.states.contains_key(r)]
        #![trigger b.states.contains_key(r)]
        a.states.contains_key(r) && r != id ==> (b.states.contains_key(r) <==> !(clean
            && settled_for_all(b, a.states[r])))
    &&& a.txns[id].rules.validates_reads && b.states.contains_key(id) ==> {
        &&& b.states[id].committed_at == if kept {
            b.clock.watermark
        } else {
            0
        }
        &&& b.states[id].aborted == !kept
        &&& kept ==> b.states[id].in_conflict == a.states[id].in_conflict
        &&& kept ==> b.states[id].out_conflict == (a.states[id].out_conflict || (in_question(a, id)
            && misled(a, id)))
    }
    &&& a.txns[id].rules.validates_reads && !b.states.contains_key(id) ==> clean && forall|x: u64|
        #[trigger] b.txns.contains_key(x) ==> b.clock.watermark <= b.txns[x].snapshot
}

proof fn lemma_goes_by<T: Versioned>(
    slot: SlotView<T>,
    scope: ScopeView<T>,
    s: u64,
    now: u64,
)
    requires
        slot.ok_by(now),
        s <= now < FOREVER,
    ensures
        goes_by(slot, scope, s) == order_key(slot, scope, s),
{
    lemma_lasting(slot, s, NOBODY, now);
    let found = live_value(read_at(slot.chain, s, NOBODY));
    assert(shown(slot, s, NOBODY, found));
    if exists|x: T| #[trigger] shown(slot, s, NOBODY, Some(x)) {
        let x = choose|x: T| #[trigger] shown(slot, s, NOBODY, Some(x));
        lemma_one_shown(slot, s, NOBODY, Some(x), found);
    }
}

/// Whom `id` notices is whom it marks.
proof fn lemma_notices<T: Versioned>(a: DbView<T>, id: u64, r: u64)
    requires
        a.inv(),
        a.txns.contains_key(id),
    ensures
        notices(a, id, r) <==> a.marked(id).contains(r),
{
    let reads = a.txns[id].reads;
    let since = a.txns[id].snapshot;
    let now = a.clock.watermark;
    assert(a.txn_ok(id));
    lemma_wrote_over(a, id);
    assert forall|i: int, k: Seq<u8>, w: u64| 0 <= i < reads.len() implies (#[trigger] put_at(
        a,
        reads[i],
        k,
        w,
    ) <==> a.replaced_at(reads[i], k, w)) by {
        assert(a.read_ok(reads[i]));
        lemma_put_at(a, reads[i], k, w);
    }
    assert forall|i: int, j: Seq<u8>, k: Seq<u8>| 0 <= i < reads.len() implies (
    #[trigger] comes_first(a, reads[i], since, j, k) <==> a.earlier(id, i, j, i, k)) by {
        assert(a.read_ok(reads[i]));
        lemma_comes_first(a, reads[i], since, j, k);
    }
    assert forall|i: int, k: Seq<u8>| 0 <= i < reads.len() implies (#[trigger] still_going(
        a,
        id,
        i,
        k,
    ) <==> a.comes_upon(id, i, k)) by {
        if still_going(a, id, i, k) {
            assert forall|m: int, j: Seq<u8>, w: u64|
                0 <= m < reads.len() && #[trigger] a.replaced_at(reads[m], j, w) && a.beyond_abort(
                    w,
                ) implies !a.earlier(id, m, j, i, k) by {
                assert(put_at(a, reads[m], j, w));
                let z = comes_first(a, reads[m], since, j, k);
            }
        }
        if a.comes_upon(id, i, k) {
            assert forall|m: int, j: Seq<u8>, w: u64|
                0 <= m < reads.len() && #[trigger] put_at(a, reads[m], j, w) && too_late(
                    a,
                    w,
                ) implies !(m < i || (m == i && comes_first(a, reads[m], since, j, k))) by {
                assert(a.replaced_at(reads[m], j, w));
            }
        }
    }
    if exists|i: int, k: Seq<u8>, w: u64|
        0 <= i < reads.len() && #[trigger] put_at(a, reads[i], k, w) && too_late(a, w) {
        let (i, k, w) = choose|i: int, k: Seq<u8>, w: u64|
            0 <= i < reads.len() && #[trigger] put_at(a, reads[i], k, w) && too_late(a, w);
        assert(a.replaced_at(reads[i], k, w) && a.beyond_abort(w));
        if notices(a, id, r) {
            let (i, k) = choose|i: int, k: Seq<u8>|
                0 <= i < reads.len() && #[trigger] put_at(a, reads[i], k, r) && still_going(
                    a,
                    id,
                    i,
                    k,
                );
            assert(a.replaced_at(reads[i], k, r) && a.comes_upon(id, i, k));
        }
        if a.marked(id).contains(r) {
            let (i, k) = choose|i: int, k: Seq<u8>|
                0 <= i < reads.len() && #[trigger] a.replaced_at(reads[i], k, r) && a.comes_upon(
                    id,
                    i,
                    k,
                );
            assert(put_at(a, reads[i], k, r) && still_going(a, id, i, k));
        }
    } else {
        assert forall|i: int, k: Seq<u8>, w: u64|
            0 <= i < reads.len() && #[trigger] a.replaced_at(reads[i], k, w) implies
            !a.beyond_abort(w) by {
            assert(put_at(a, reads[i], k, w));
        }
        assert(wrote_over(a, id, r) <==> a.overwriters(id).contains(r));
    }
}

proof fn lemma_put_at<T: Versioned>(db: DbView<T>, read: ReadView<T>, k: Seq<u8>, w: u64)
    requires
        db.inv(),
        0 <= read.table < db.tables.len(),
    ensures
        put_at(db, read, k, w) <==> db.replaced_at(read, k, w),
{
    let slots = db.tables[read.table].slots;
    let now = db.clock.watermark;
    lemma_outdated(db, read);
    assert(agrees(db, read, k) <==> !differ(db.seen_now(read), read.observed, k));
    assert(db.tables[read.table].sound(now));
    assert(slots[k].ok_by(now));
    lemma_lasting(slots[k], now, NOBODY, now);
    if db.replaced_at(read, k, w) {
        let v = read_at(slots[k].chain, now, NOBODY)->Some_0;
        let i = choose|i: int| 0 <= i < slots[k].chain.len() && #[trigger] slots[k].chain[i] == v;
        assert(lasts(slots[k].chain[i], now));
    }
}

proof fn lemma_comes_first<T: Versioned>(
    db: DbView<T>,
    read: ReadView<T>,
    since: u64,
    j: Seq<u8>,
    k: Seq<u8>,
)
    requires
        db.inv(),
        0 <= read.table < db.tables.len(),
        since <= db.clock.watermark,
    ensures
        comes_first(db, read, since, j, k) <==> sooner(
            db.place_of(read, since, j),
            db.place_of(read, since, k),
        ),
{
    let slots = db.tables[read.table].slots;
    let now = db.clock.watermark;
    assert(db.tables[read.table].sound(now));
    lemma_observed_at(db, read.table, read.scope, now);
    assert forall|x: Seq<u8>| #[trigger]
        finds(db, read, x) <==> db.seen_now(read).contains_key(x) by {
        if finds(db, read, x) {
            let i = choose|i: int|
                0 <= i < slots[x].chain.len() && #[trigger] comes_across(
                    read.scope,
                    x,
                    slots[x].chain[i],
                    now,
                );
            let v = slots[x].chain[i];
        }
    }
    assert(slots[j].ok_by(now));
    assert(slots[k].ok_by(now));
    lemma_goes_by(slots[j], read.scope, now, now);
    lemma_goes_by(slots[k], read.scope, now, now);
    lemma_goes_by(slots[j], read.scope, since, now);
    lemma_goes_by(slots[k], read.scope, since, now);
}

/// What is too late to abort, and whom `id` marks if nothing is.
proof fn lemma_doomed<T: Versioned>(a: DbView<T>, id: u64)
    requires
        a.inv(),
        a.txns.contains_key(id),
    ensures
        a.past_saving(id) <==> doomed(a, id),
        misled(a, id) && !doomed(a, id) ==> a.marked(id) == a.overwriters(id),
        misled(a, id) && !doomed(a, id) ==> (a.marked(id).contains(id) <==> wrote_over(a, id, id)),
{
    lemma_wrote_over(a, id);
    if a.past_saving(id) {
        let w = choose|w: u64| #[trigger] a.overwriters(id).contains(w) && a.beyond_abort(w);
        assert(wrote_over(a, id, w));
    }
    if doomed(a, id) {
        let w = choose|w: u64| #[trigger]
            wrote_over(a, id, w) && a.states.contains_key(w) && a.states[w].committed_at != 0
                && a.states[w].out_conflict;
        assert(a.overwriters(id).contains(w) && a.beyond_abort(w));
    }
    if misled(a, id) && !doomed(a, id) {
        assert forall|i: int, k: Seq<u8>, w: u64|
            0 <= i < a.txns[id].reads.len() && #[trigger] a.replaced_at(a.txns[id].reads[i], k, w)
            implies !a.beyond_abort(w) by {
            assert(a.replaced_by(a.txns[id].reads[i], w));
            assert(a.changed_by(a.txns[id].reads[i], a.txns[id].snapshot, w));
            assert(a.overwriters(id).contains(w));
        }
        assert(wrote_over(a, id, id) <==> a.overwriters(id).contains(id));
    }
}

/// What looking for conflicts puts on record.
proof fn lemma_looked<T: Versioned>(a: DbView<T>, id: u64)
    requires
        a.inv(),
        a.txns.contains_key(id),
        in_question(a, id),
    ensures
        a.needs_validation(id),
        ({
            let d = a.detected(id).0;
            &&& d.states.dom() == a.states.dom()
            &&& d.txns == a.txns && d.clock == a.clock && d.gc_hint == a.gc_hint
            &&& forall|r: u64| #[trigger]
                a.states.contains_key(r) && r != id ==> on_record(
                    a,
                    id,
                    r,
                    a.states[r],
                    d.states[r],
                )
            &&& d.states[id].committed_at == 0 && !d.states[id].aborted
            &&& a.detected(id).1 ==> d.states[id].in_conflict == a.states[id].in_conflict
                && d.states[id].out_conflict == outgoing(a, id)
        }),
{
    assert(a.txn_ok(id));
    lemma_wrote_over(a, id);
    lemma_has_read(a, id);
    lemma_detected_inv(a, id);
    let states = a.states_outgoing(id);
    let d = a.detected(id).0;
    assert(states.contains_key(id));
    lemma_doomed(a, id);
    assert(states.dom() =~= a.states.dom());
    assert(d.states.dom() =~= a.states.dom());
    assert(states[id].out_conflict == outgoing(a, id));
    assert(!doomed(a, id) ==> states[id].in_conflict == incoming(a, id));
    let readers = a.overwritten_readers(id, states);
    assert forall|r: u64| #[trigger] a.states.contains_key(r) && r != id implies on_record(
        a,
        id,
        r,
        a.states[r],
        d.states[r],
    ) by {
        assert(has_read(a, id, r) <==> readers.contains(r));
        lemma_notices(a, id, r);
    }
    assert(!readers.contains(id));
    if a.detected(id).1 && states[id].out_conflict {
        assert(readers.is_empty());
    }
}

/// Ending takes nothing back of what is on record.
proof fn lemma_recorded<T: Versioned>(a: DbView<T>, d: DbView<T>, id: u64, kept: bool)
    requires
        a.inv(),
        d.inv(),
        a.txns.contains_key(id),
        a.clock.next < FOREVER,
        d.txns == a.txns,
        d.clock == a.clock,
        d.states.dom() == a.states.dom(),
        in_question(a, id) ==> d == a.detected(id).0 && kept == a.detected(id).1,
        !in_question(a, id) ==> d == a && kept,
    ensures
        recorded(
            a,
            if kept {
                d.committed(id)
            } else {
                d.rolled_back(id)
            },
            id,
            kept,
        ),
{
    assert(a.txn_ok(id));
    if in_question(a, id) {
        lemma_looked(a, id);
    }
    let b = if kept {
        d.committed(id)
    } else {
        d.rolled_back(id)
    };
    if kept {
        let s = d.stamped(id);
        lemma_stamped_inv(d, id);
        lemma_committed_inv(d, id);
        lemma_oldest(s);
        let g = gc_watermark(s.clock);
        assert(b.clock == s.clock && b.txns == s.txns);
        assert forall|x: TxnState| #[trigger] x.expired_at(g) <==> settled_for_all(b, x) by {
            if settled_for_all(b, x) && !x.aborted && g != s.clock.watermark {
                let y = choose|y: u64| #[trigger]
                    s.txns.contains_key(y) && s.txns[y].snapshot == g;
                assert(b.txns.contains_key(y));
            }
        }
        assert forall|r: u64|
            #![trigger a.states.contains_key(r)]
            #![trigger b.states.contains_key(r)]
            a.states.contains_key(r) && r != id implies (b.states.contains_key(r) <==> !(
        b.clock.watermark % 128 == 0 && settled_for_all(b, a.states[r]))) by {
            assert(d.states.contains_key(r));
            let z = d.states[r].expired_at(g);
            let y = a.states[r].expired_at(g);
            if in_question(a, id) {
                assert(on_record(a, id, r, a.states[r], d.states[r]));
            }
        }
        if a.txns[id].rules.validates_reads && !b.states.contains_key(id) {
            let z = s.states[id].expired_at(g);
            assert(settled_for_all(b, s.states[id]));
        }
    } else {
        assert forall|r: u64|
            #![trigger a.states.contains_key(r)]
            #![trigger b.states.contains_key(r)]
            a.states.contains_key(r) && r != id implies b.states.contains_key(r) by {
            assert(d.states.contains_key(r));
        }
    }
    assert forall|r: u64| #[trigger]
        b.states.contains_key(r) && r != id implies a.states.contains_key(r) && on_record(
        a,
        id,
        r,
        a.states[r],
        b.states[r],
    ) by {
        assert(d.states.contains_key(r));
        assert(a.states.contains_key(r));
        assert(b.states[r] == d.states[r]);
    }
}

/// A commit, whether it succeeds or is refused, puts on record who conflicts with
/// whom: those that it finds to have overwritten its reads, and those that it finds to
/// have read what it wrote. On nobody else is a conflict recorded.
pub proof fn law_conflicts_go_on_record<T: Versioned, I: IsolationLevel>(tx: Transaction<I>)
    ensures
        forall|db: &mut Database<T>, r: Result<()>| #[trigger]
            call_ensures(Transaction::<I>::commit::<T>, (tx, db), r) && db.wf()
                && db@.txns.contains_key(tx.who()) && db@.clock.next < FOREVER ==> recorded(
                db@,
                final(db)@,
                tx.who(),
                r is Ok,
            ),
{
    assert forall|db: &mut Database<T>, r: Result<()>| #[trigger]
        call_ensures(Transaction::<I>::commit::<T>, (tx, db), r) && db.wf()
            && db@.txns.contains_key(tx.who()) && db@.clock.next < FOREVER implies recorded(
        db@,
        final(db)@,
        tx.who(),
        r is Ok,
    ) by {
        db.lemma_wf();
        let id = tx.who();
        lemma_has_read(db@, id);
        if in_question(db@, id) {
            lemma_looked(db@, id);
            lemma_detected_inv(db@, id);
            lemma_recorded(db@, db@.detected(id).0, id, db@.detected(id).1);
        } else {
            lemma_recorded(db@, db@, id, true);
        }
    }
}

// --- read locks --------------------------------------------------------------------

/// From `a` to `b` no read lock was added. None was lost but where `id` `looked` for
/// those who had read what it was writing: there only such are left of transactions that
/// can still conflict with one that is running.
pub open spec fn locks_kept<T: Versioned>(
    a: DbView<T>,
    b: DbView<T>,
    id: u64,
    looked: bool,
) -> bool {
    &&& forall|t: int, k: Seq<u8>, r: u64|
        0 <= t < a.tables.len() ==> (#[trigger] b.tables[t].slots[k].readers.contains(r)
            <==> a.tables[t].slots[k].readers.contains(r) && (looked && a.tables[t].slots[k].lock
            == id ==> still_matters(a, r)))
    &&& forall|t: int|
        #![trigger b.tables[t]]
        0 <= t < a.tables.len() ==> if looked && writes_to(a.tables[t], id) {
            forall|l: (u64, Arc<Filter<T::Predicate>>)| #[trigger]
                b.tables[t].locks.contains(l) <==> a.tables[t].locks.contains(l) && still_matters(
                    a,
                    l.0,
                )
        } else {
            b.tables[t].locks == a.tables[t].locks
        }
}

/// Whether `id` is writing a record of this table.
pub open spec fn writes_to<T: Versioned>(tv: TableView<T>, id: u64) -> bool {
    exists|k: Seq<u8>| (#[trigger] tv.slots[k]).lock == id
}

/// Only looking on touches the read locks.
proof fn lemma_looks_on<T: Versioned>(a: DbView<T>, id: u64)
    requires
        a.inv(),
        a.txns.contains_key(id),
        in_question(a, id),
    ensures
        a.detected(id).0.tables == if looks_on(a, id) {
            a.tables_purged(id, a.states_outgoing(id))
        } else {
            a.tables
        },
{
    assert(a.txn_ok(id));
    lemma_wrote_over(a, id);
    let states = a.states_outgoing(id);
    lemma_doomed(a, id);
    assert(states.contains_key(id));
    assert(states[id].out_conflict == outgoing(a, id));
    assert(!doomed(a, id) ==> states[id].in_conflict == incoming(a, id));
}

proof fn lemma_locks_kept<T: Versioned>(
    a: DbView<T>,
    d: DbView<T>,
    id: u64,
    kept: bool,
    searched: bool,
)
    requires
        a.inv(),
        a.txns.contains_key(id),
        a.clock.next < FOREVER,
        if searched {
            d == a.detected(id).0 && in_question(a, id)
        } else {
            d == a
        },
    ensures
        locks_kept(
            a,
            if kept {
                d.committed(id)
            } else {
                d.rolled_back(id)
            },
            id,
            searched && looks_on(a, id),
        ),
{
    assert(a.txn_ok(id));
    let b = if kept {
        d.committed(id)
    } else {
        d.rolled_back(id)
    };
    let looked = searched && looks_on(a, id);
    let g = gc_watermark(a.clock);
    let states = a.states_outgoing(id);
    if searched {
        lemma_looks_on(a, id);
    }
    assert forall|r: u64| #[trigger] still_matters(a, r) <==> !crate::ssi::expired(
        states,
        r,
        g,
    ) by {
        lemma_still_matters(a, id, r);
    }
    assert forall|t: int, k: Seq<u8>, r: u64|
        0 <= t < a.tables.len() implies (#[trigger] b.tables[t].slots[k].readers.contains(r)
        <==> a.tables[t].slots[k].readers.contains(r) && (looked && a.tables[t].slots[k].lock == id
        ==> still_matters(a, r))) by {
        let z = d.tables[t].slots[k];
        assert(b.tables[t].slots[k].readers == z.readers);
    }
    let keep = |l: (u64, Arc<Filter<T::Predicate>>)| !crate::ssi::expired(states, l.0, g);
    assert forall|t: int|
        #![trigger b.tables[t]]
        0 <= t < a.tables.len() implies if looked && writes_to(a.tables[t], id) {
        forall|l: (u64, Arc<Filter<T::Predicate>>)| #[trigger]
            b.tables[t].locks.contains(l) <==> a.tables[t].locks.contains(l) && still_matters(
                a,
                l.0,
            )
    } else {
        b.tables[t].locks == a.tables[t].locks
    } by {
        assert(b.tables[t].locks == d.tables[t].locks);
        if looked && writes_to(a.tables[t], id) {
            let x = a.tables[t].locks;
            assert(a.tables[t].written_by(id));
            assert(b.tables[t].locks == x.filter(keep));
            assert forall|l: (u64, Arc<Filter<T::Predicate>>)| #[trigger]
                b.tables[t].locks.contains(l) <==> x.contains(l) && still_matters(a, l.0) by {
                if x.filter(keep).contains(l) {
                    x.lemma_filter_contains_rev(keep, l);
                    let j = choose|j: int| 0 <= j < x.filter(keep).len() && x.filter(keep)[j] == l;
                    x.lemma_filter_pred(keep, j);
                    assert(keep(l));
                }
                if x.contains(l) && still_matters(a, l.0) {
                    let i = choose|i: int| 0 <= i < x.len() && x[i] == l;
                    assert(keep(x[i]));
                    x.lemma_filter_contains(keep, i);
                }
            }
        }
    }
    assert(locks_kept(a, b, id, looked));
}

// --- versions ----------------------------------------------------------------------

/// The version `v` of a record that `id` was writing, dated `ts`: one of `id`'s begins
/// then, and one that is followed by one of `id`'s ends then.
pub open spec fn dated<T>(v: Version<T>, followed: bool, ts: u64) -> Version<T> {
    Version {
        begin: if v.begin >= 0x8000_0000_0000_0000 {
            ts
        } else {
            v.begin
        },
        end: if followed {
            ts
        } else {
            v.end
        },
        value: v.value,
        writer: v.writer,
    }
}

/// The versions of a record once `id` has ended, before any are reclaimed: those that
/// it wrote are dated if `kept` and gone otherwise.
pub open spec fn resolved<T>(slot: SlotView<T>, id: u64, kept: bool, ts: u64) -> Seq<Version<T>> {
    if slot.lock != id {
        slot.chain
    } else if kept {
        Seq::new(
            slot.chain.len(),
            |i: int|
                dated(
                    slot.chain[i],
                    i + 1 < slot.chain.len() && slot.chain[i + 1].begin >= 0x8000_0000_0000_0000,
                    ts,
                ),
        )
    } else {
        slot.chain.filter(|v: Version<T>| v.begin < 0x8000_0000_0000_0000)
    }
}

/// Whether nobody reading at `ts` or later can see version `i`: it ended by then, or
/// it is the last, stands for a delete, and had begun by then.
pub open spec fn out_of_sight<T>(chain: Seq<Version<T>>, i: int, ts: u64) -> bool {
    chain[i].end <= ts || (i == chain.len() - 1 && chain[i].value is None && chain[i].begin <= ts)
}

/// `after` is `before` without some versions that are out of sight at `ts`, if not
/// without `all` of them.
pub open spec fn trimmed<T>(
    before: Seq<Version<T>>,
    after: Seq<Version<T>>,
    ts: u64,
    all: bool,
) -> bool {
    let d = before.len() - after.len();
    &&& d >= 0
    &&& after == before.skip(d)
    &&& forall|i: int| 0 <= i < d ==> #[trigger] out_of_sight(before, i, ts)
    &&& all ==> forall|i: int| d <= i < before.len() ==> !#[trigger] out_of_sight(before, i, ts)
}

/// From `a` to `b` the transaction `id` has ended, committed if `kept`. The versions
/// that it wrote are dated with the commit or gone, and of the others only such are
/// gone that no running transaction can see. A commit reclaims what it can of the
/// records it wrote, as far as is known of what can be seen; learns anew what can be
/// seen at every 128th; and at every 4096th reclaims what it can of one part in 64 of
/// the other records, each in turn.
pub open spec fn reclaimed<T: Versioned>(a: DbView<T>, b: DbView<T>, id: u64, kept: bool) -> bool {
    let ts = b.clock.watermark;
    let sweep = kept && ts % 4096 == 0;
    &&& if kept && ts % 128 == 0 {
        oldest(b, b.gc_hint)
    } else {
        b.gc_hint == a.gc_hint
    }
    &&& forall|t: int, k: Seq<u8>|
        #![trigger b.tables[t].slots[k]]
        0 <= t < a.tables.len() ==> {
            let was = resolved(a.tables[t].slots[k], id, kept, ts);
            let now = b.tables[t].slots[k].chain;
            if sweep && home(k) == (ts / 4096) % 64 && b.tables[t].slots[k].lock == 0 {
                trimmed(was, now, b.gc_hint, true)
            } else if kept && a.tables[t].slots[k].lock == id {
                trimmed(was, now, a.gc_hint, true)
            } else {
                now == was
            }
        }
}

/// Trimming at one time and then at a later one is trimming at the later one.
proof fn lemma_trimmed<T>(slot: SlotView<T>, w: u64, now: u64)
    requires
        slot.ok_by(now),
        slot.lock == 0,
        w < FOREVER,
    ensures
        trimmed(slot.chain, pruned(slot.chain, w), w, true),
{
    lemma_removed(slot, w);
    let d = slot.chain.len() - pruned(slot.chain, w).len();
    assert forall|i: int| 0 <= i < d implies #[trigger] out_of_sight(slot.chain, i, w) by {
        let z = slot.chain[i];
    }
    assert forall|i: int| d <= i < slot.chain.len() implies !#[trigger] out_of_sight(
        slot.chain,
        i,
        w,
    ) by {
        let z = slot.chain[i];
    }
}

proof fn lemma_trimmed_twice<T>(
    a: Seq<Version<T>>,
    b: Seq<Version<T>>,
    c: Seq<Version<T>>,
    w: u64,
    x: u64,
)
    requires
        trimmed(a, b, w, true),
        trimmed(b, c, x, true),
        w <= x,
    ensures
        trimmed(a, c, x, true),
{
    let d = a.len() - b.len();
    let e = a.len() - c.len();
    assert(c =~= a.skip(e));
    assert forall|i: int| 0 <= i < e implies #[trigger] out_of_sight(a, i, x) by {
        if i < d {
            assert(out_of_sight(a, i, w));
        } else {
            assert(out_of_sight(b, i - d, x));
            assert(b[i - d] == a[i]);
        }
    }
    assert forall|i: int| e <= i < a.len() implies !#[trigger] out_of_sight(a, i, x) by {
        assert(!out_of_sight(b, i - d, x));
        assert(b[i - d] == a[i]);
    }
}

/// What ending makes of the versions of one record.
proof fn lemma_resolved<T>(slot: SlotView<T>, id: u64, ts: u64, now: u64)
    requires
        slot.ok_by(now),
        slot.lock == id,
        0 < id < IN_FLIGHT,
        now < ts < FOREVER,
    ensures
        resolved(slot, id, true, ts) == crate::slot::stamped(slot.chain, id, ts),
        resolved(slot, id, false, ts) == crate::slot::rolled_back(slot.chain),
{
    lemma_settled(slot.chain);
    let n = settled(slot.chain) as int;
    assert forall|i: int| 0 <= i < slot.chain.len() implies (#[trigger] slot.chain[i].begin
        >= 0x8000_0000_0000_0000 <==> n <= i) && (n <= i ==> slot.chain[i].begin
        == crate::time::tag(id)) by {
        let v = slot.chain[i];
    }
    assert(resolved(slot, id, true, ts) =~= crate::slot::stamped(slot.chain, id, ts));
    let p = |v: Version<T>| v.begin < 0x8000_0000_0000_0000;
    let low = slot.chain.take(n);
    let high = slot.chain.skip(n);
    assert(slot.chain =~= low + high);
    Seq::filter_distributes_over_add(low, high, p);
    lemma_all_kept(low, p);
    lemma_none_kept(high, p);
    assert(slot.chain.filter(p) =~= low);
}

proof fn lemma_all_kept<V>(s: Seq<V>, p: spec_fn(V) -> bool)
    requires
        forall|i: int| 0 <= i < s.len() ==> p(#[trigger] s[i]),
    ensures
        s.filter(p) == s,
    decreases s.len(),
{
    reveal(Seq::filter);
    if s.len() > 0 {
        let rest = s.drop_last();
        assert forall|i: int| 0 <= i < rest.len() implies p(#[trigger] rest[i]) by {
            assert(p(s[i]));
        }
        lemma_all_kept(rest, p);
        assert(s =~= rest.push(s.last()));
    }
}

proof fn lemma_none_kept<V>(s: Seq<V>, p: spec_fn(V) -> bool)
    requires
        forall|i: int| 0 <= i < s.len() ==> !p(#[trigger] s[i]),
    ensures
        s.filter(p) == Seq::<V>::empty(),
    decreases s.len(),
{
    reveal(Seq::filter);
    if s.len() > 0 {
        let rest = s.drop_last();
        assert forall|i: int| 0 <= i < rest.len() implies !p(#[trigger] rest[i]) by {
            assert(!p(s[i]));
        }
        lemma_none_kept(rest, p);
    }
}

/// What a commit makes of the versions of one record, first pruned at `w`, if `id`
/// wrote it, and then swept at `x`, if its turn has come.
proof fn lemma_record<T>(
    slot: SlotView<T>,
    id: u64,
    ts: u64,
    now: u64,
    w: u64,
    x: u64,
    turn: bool,
)
    requires
        slot.ok_by(now),
        0 < id < IN_FLIGHT,
        now < ts < FOREVER,
        w <= x <= ts,
    ensures
        ({
            let was = resolved(slot, id, true, ts);
            let y = if slot.lock == id {
                slot.committed(id, ts, w)
            } else {
                slot
            };
            let z = if turn {
                y.swept(x)
            } else {
                y
            };
            &&& z.lock == y.lock
            &&& if turn && z.lock == 0 {
                trimmed(was, z.chain, x, true)
            } else if slot.lock == id {
                trimmed(was, z.chain, w, true)
            } else {
                z.chain == was
            }
        }),
{
    if slot.lock == id {
        let u = SlotView {
            chain: crate::slot::stamped(slot.chain, id, ts),
            lock: 0,
            readers: slot.readers,
        };
        let y = slot.committed(id, ts, w);
        lemma_resolved(slot, id, ts, now);
        crate::chain::lemma_stamped(slot, id, ts, now);
        crate::chain::lemma_pruned(u, w, ts);
        lemma_trimmed(u, w, ts);
        lemma_trimmed(y, x, ts);
        lemma_trimmed_twice(u.chain, y.chain, pruned(y.chain, x), w, x);
    } else if slot.lock == 0 {
        lemma_trimmed(slot, x, ts);
    }
}

/// The record under `k` once `id` has committed.
proof fn lemma_slot<T: Versioned>(d: DbView<T>, id: u64, t: int, k: Seq<u8>)
    requires
        0 <= t < d.tables.len(),
        d.clock.next < FOREVER,
    ensures
        ({
            let b = d.committed(id);
            let ts = b.clock.watermark;
            let x = d.tables[t].slots[k];
            let y = if x.lock == id {
                x.committed(id, ts, d.gc_hint)
            } else {
                x
            };
            b.tables[t].slots[k] == if ts % 4096 == 0 && home(k) == (ts / 4096) % 64 {
                y.swept(b.gc_hint)
            } else {
                y
            }
        }),
{
    let s = d.stamped(id);
    let f = s.refreshed();
    assert(f.tables[t].slots[k] == s.tables[t].slots[k]);
    assert((f.clock.watermark / 4096) as int % 64 == (f.clock.watermark / 4096) % 64);
}

proof fn lemma_reclaimed<T: Versioned>(a: DbView<T>, d: DbView<T>, id: u64, kept: bool)
    requires
        a.inv(),
        a.txns.contains_key(id),
        a.clock.next < FOREVER,
        d == a || (d == a.detected(id).0 && a.txns[id].rules.validates_reads),
    ensures
        reclaimed(
            a,
            if kept {
                d.committed(id)
            } else {
                d.rolled_back(id)
            },
            id,
            kept,
        ),
{
    assert(a.txn_ok(id));
    if d != a {
        lemma_detected_inv(a, id);
    }
    assert(d.txn_ok(id));
    let b = if kept {
        d.committed(id)
    } else {
        d.rolled_back(id)
    };
    let ts = b.clock.watermark;
    assert forall|t: int, k: Seq<u8>|
        #![trigger d.tables[t].slots[k]]
        0 <= t < a.tables.len() implies d.tables[t].slots[k].chain == a.tables[t].slots[k].chain
        && d.tables[t].slots[k].lock == a.tables[t].slots[k].lock && d.tables[t].slots[k].ok_by(
        a.clock.watermark,
    ) by {
        if d != a {
            assert(quieter(a.tables[t], d.tables[t]));
        }
        assert(d.tables[t].sound(a.clock.watermark));
    }
    if kept {
        let s = d.stamped(id);
        lemma_stamped_inv(d, id);
        lemma_gc_watermark_bounds(s);
        lemma_oldest(s);
        assert(b.clock == s.clock && b.txns == s.txns);
        assert(a.gc_hint <= b.gc_hint <= ts);
        assert forall|t: int, k: Seq<u8>|
            #![trigger b.tables[t].slots[k]]
            0 <= t < a.tables.len() implies {
            let was = resolved(a.tables[t].slots[k], id, true, ts);
            let now = b.tables[t].slots[k].chain;
            if ts % 4096 == 0 && home(k) == (ts / 4096) % 64 && b.tables[t].slots[k].lock == 0 {
                trimmed(was, now, b.gc_hint, true)
            } else if a.tables[t].slots[k].lock == id {
                trimmed(was, now, a.gc_hint, true)
            } else {
                now == was
            }
        } by {
            let x = d.tables[t].slots[k];
            let turn = ts % 4096 == 0 && home(k) == (ts / 4096) % 64;
            lemma_slot(d, id, t, k);
            lemma_record(x, id, ts, a.clock.watermark, a.gc_hint, b.gc_hint, turn);
        }
        assert(reclaimed(a, b, id, true));
    } else {
        assert forall|t: int, k: Seq<u8>|
            #![trigger b.tables[t].slots[k]]
            0 <= t < a.tables.len() implies b.tables[t].slots[k].chain == resolved(
            a.tables[t].slots[k],
            id,
            false,
            ts,
        ) by {
            let x = d.tables[t].slots[k];
            if x.lock == id {
                lemma_resolved(x, id, d.clock.next, d.clock.watermark);
            }
        }
        assert(reclaimed(a, b, id, false));
    }
}

/// A commit, whether it succeeds or is refused, dates or takes back what was written,
/// reclaims only what nobody can see, and leaves every read lock that can matter.
pub proof fn law_commits_tidy_up<T: Versioned, I: IsolationLevel>(tx: Transaction<I>)
    ensures
        forall|db: &mut Database<T>, r: Result<()>| #[trigger]
            call_ensures(Transaction::<I>::commit::<T>, (tx, db), r) && db.wf()
                && db@.txns.contains_key(tx.who()) && db@.clock.next < FOREVER ==> reclaimed(
                db@,
                final(db)@,
                tx.who(),
                r is Ok,
            ) && locks_kept(db@, final(db)@, tx.who(), looks_on(db@, tx.who())),
{
    assert forall|db: &mut Database<T>, r: Result<()>| #[trigger]
        call_ensures(Transaction::<I>::commit::<T>, (tx, db), r) && db.wf()
            && db@.txns.contains_key(tx.who()) && db@.clock.next < FOREVER implies reclaimed(
        db@,
        final(db)@,
        tx.who(),
        r is Ok,
    ) && locks_kept(db@, final(db)@, tx.who(), looks_on(db@, tx.who())) by {
        db.lemma_wf();
        let id = tx.who();
        let (d, kept) = if db@.needs_validation(id) {
            db@.detected(id)
        } else {
            (db@, true)
        };
        lemma_reclaimed(db@, d, id, kept);
        lemma_has_read(db@, id);
        lemma_locks_kept(db@, d, id, kept, db@.needs_validation(id));
    }
}

/// An abort takes back what was written, puts nothing on record but that the
/// transaction aborted, and leaves every read lock where it is.
pub proof fn law_aborts_leave_no_trace<T: Versioned, I: IsolationLevel>(tx: Transaction<I>)
    ensures
        forall|db: &mut Database<T>| #[trigger]
            call_ensures(Transaction::<I>::abort::<T>, (tx, db), ()) && db.wf()
                && db@.txns.contains_key(tx.who()) && db@.clock.next < FOREVER ==> {
                let id = tx.who();
                let a = db@;
                let b = final(db)@;
                &&& reclaimed(a, b, id, false)
                &&& locks_kept(a, b, id, false)
                &&& b.states.dom() == a.states.dom()
                &&& forall|r: u64| #[trigger]
                    a.states.contains_key(r) ==> b.states[r] == if r == id
                        && a.txns[id].rules.validates_reads {
                        TxnState { aborted: true, ..a.states[r] }
                    } else {
                        a.states[r]
                    }
            },
{
    assert forall|db: &mut Database<T>| #[trigger]
        call_ensures(Transaction::<I>::abort::<T>, (tx, db), ()) && db.wf()
            && db@.txns.contains_key(tx.who()) && db@.clock.next < FOREVER implies {
        let id = tx.who();
        let a = db@;
        let b = final(db)@;
        &&& reclaimed(a, b, id, false)
        &&& locks_kept(a, b, id, false)
        &&& b.states.dom() == a.states.dom()
        &&& forall|r: u64| #[trigger]
            a.states.contains_key(r) ==> b.states[r] == if r == id
                && a.txns[id].rules.validates_reads {
                TxnState { aborted: true, ..a.states[r] }
            } else {
                a.states[r]
            }
    } by {
        db.lemma_wf();
        let id = tx.who();
        assert(db@.txn_ok(id));
        lemma_reclaimed(db@, db@, id, false);
        lemma_locks_kept(db@, db@, id, false, false);
        assert(final(db)@.states.dom() =~= db@.states.dom());
    }
}

} // verus!
