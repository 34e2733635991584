//! Why every operation keeps what holds of a database between statements.

use std::sync::Arc;

use vstd::prelude::*;

use crate::chain::lemma_installed;
use crate::filter::Filter;
use crate::integrity::{
    lemma_abort_sound, lemma_commit_sound, lemma_install_sound, lemma_new_sound, lemma_pruned_sound,
    lemma_quiet_sound, released,
};
use crate::isolation::Rules;
use crate::oracle::{
    law_txn_ids_are_unique, lemma_total_update, nth_id, shard_of, total, OracleView, IDS_PER_SHARD,
    SHARDS,
};
use crate::slot::{
    lemma_newest_index, lemma_settled, newest_index, settled, visible, SlotView, Version,
};
use crate::state::{
    gc_watermark, holders, lemma_gc_watermark, lemma_shared, seen, unique_conflict, unshared,
    was_issued, DbView, ReadView, ScopeView, TxnView,
};
use crate::table::{taken, TableView};
use crate::time::{TxnId, FOREVER, IN_FLIGHT, NOBODY};
use crate::versioned::Versioned;

verus! {

/// Where nothing conflicts, every unique key is free or the writer's own.
pub proof fn lemma_no_unique_conflict<T: Versioned>(
    tv: TableView<T>,
    id: u64,
    k: Seq<u8>,
    x: T,
    p: int,
)
    requires
        0 <= p,
        unique_conflict(tv, id, k, x, p) is None,
    ensures
        forall|q: int|
            #![trigger tv.indexes[q]]
            p <= q < tv.indexes.len() && tv.indexes[q].unique ==> !taken(
                tv.slots,
                q,
                x.spec_index_key(q),
                k,
                id,
            ) && (tv.claims[q].contains_key(x.spec_index_key(q))
                ==> tv.claims[q][x.spec_index_key(q)] == id),
    decreases tv.indexes.len() - p,
{
    if p < tv.indexes.len() {
        lemma_no_unique_conflict(tv, id, k, x, p + 1);
    }
}

/// An id that has not been issued belongs to no running transaction.
pub proof fn lemma_fresh<T: Versioned>(db: DbView<T>, slot: int)
    requires
        db.inv(),
        0 <= slot < SHARDS,
        db.clock.issued[slot] < IDS_PER_SHARD,
    ensures
        !db.live(nth_id(slot, db.clock.issued[slot] as int) as u64),
        0 < nth_id(slot, db.clock.issued[slot] as int) < IN_FLIGHT,
{
    let n = db.clock.issued[slot] as int;
    let id = nth_id(slot, n) as u64;
    if db.live(id) {
        assert(db.txn_ok(id));
        let (s2, n2) = choose|s2: int, n2: int|
            0 <= s2 < SHARDS && 0 <= n2 < db.clock.issued[s2] && #[trigger] nth_id(s2, n2) == id;
        law_txn_ids_are_unique(slot, n, s2, n2);
    }
}

/// Adding a running transaction adds it to the holders of its snapshot.
proof fn lemma_holders_insert<T: Versioned>(
    txns: Map<u64, TxnView<T>>,
    id: u64,
    txn: TxnView<T>,
    s: int,
    ts: u64,
)
    requires
        !txns.contains_key(id),
        txns.dom().finite(),
    ensures
        holders(txns.insert(id, txn), s, ts).len() == holders(txns, s, ts).len() + if shard_of(id)
            == s && txn.snapshot == ts {
            1int
        } else {
            0
        },
{
    let after = txns.insert(id, txn);
    if shard_of(id) == s && txn.snapshot == ts {
        assert(holders(after, s, ts) =~= holders(txns, s, ts).insert(id));
        assert(holders(txns, s, ts).finite());
    } else {
        assert(holders(after, s, ts) =~= holders(txns, s, ts));
    }
}

/// Removing one takes it off.
proof fn lemma_holders_remove<T: Versioned>(
    txns: Map<u64, TxnView<T>>,
    id: u64,
    s: int,
    ts: u64,
)
    requires
        txns.contains_key(id),
        txns.dom().finite(),
    ensures
        holders(txns.remove(id), s, ts).len() == holders(txns, s, ts).len() - if shard_of(id) == s
            && txns[id].snapshot == ts {
            1int
        } else {
            0
        },
{
    let after = txns.remove(id);
    assert(holders(txns, s, ts).finite());
    if shard_of(id) == s && txns[id].snapshot == ts {
        assert(holders(txns, s, ts).contains(id));
        assert(holders(after, s, ts) =~= holders(txns, s, ts).remove(id));
    } else {
        assert(holders(after, s, ts) =~= holders(txns, s, ts));
    }
}

/// A running transaction pins the reclamation watermark.
pub proof fn lemma_pinned<T: Versioned>(db: DbView<T>, id: u64)
    requires
        db.active_ok(),
        db.clock.active.len() == SHARDS,
        db.live(id),
    ensures
        db.clock.is_active(db.txns[id].snapshot),
{
    let s = shard_of(id);
    let ts = db.txns[id].snapshot;
    assert(holders(db.txns, s, ts).contains(id));
    assert(holders(db.txns, s, ts).finite());
    assert(holders(db.txns, s, ts).len() > 0) by {
        if holders(db.txns, s, ts).len() == 0 {
            assert(holders(db.txns, s, ts) =~= Set::empty());
        }
    }
    assert(db.clock.active[s].count(ts) > 0);
    assert(db.clock.active[s].contains(ts));
}

/// Beginning a transaction.
pub proof fn lemma_begin_inv<T: Versioned>(db: DbView<T>, slot: int, rules: Rules)
    requires
        db.inv(),
        0 <= slot < SHARDS,
        db.clock.issued[slot] < IDS_PER_SHARD,
    ensures
        db.after_begin(slot, rules).inv(),
{
    lemma_fresh(db, slot);
    let n = db.clock.issued[slot] as int;
    let id = nth_id(slot, n) as u64;
    let b = db.after_begin(slot, rules);
    let sh = shard_of(id);
    let ts0 = db.clock.watermark;
    let txn = TxnView { snapshot: ts0, rules, reads: Seq::<ReadView<T>>::empty() };
    assert forall|x: u64| was_issued(db.clock, x) implies was_issued(b.clock, x) by {
        let (s2, n2) = choose|s2: int, n2: int|
            0 <= s2 < SHARDS && 0 <= n2 < db.clock.issued[s2] && #[trigger] nth_id(s2, n2) == x;
        assert(n2 < b.clock.issued[s2]);
    }
    assert(was_issued(b.clock, id)) by {
        assert(nth_id(slot, n) == id && n < b.clock.issued[slot]);
    }
    assert forall|s: int, ts: u64|
        #![trigger b.clock.active[s].count(ts)]
        0 <= s < SHARDS implies b.clock.active[s].count(ts) == holders(b.txns, s, ts).len() by {
        lemma_holders_insert(db.txns, id, txn, s, ts);
        assert(db.clock.active[s].count(ts) == holders(db.txns, s, ts).len());
    }
    lemma_total_update(db.clock.active, sh, db.clock.active[sh].insert(ts0));
    assert(b.txns.dom() =~= db.txns.dom().insert(id));
    assert forall|x: u64| #[trigger] b.txns.contains_key(x) implies b.txn_ok(x) by {
        if x != id {
            assert(db.txns.contains_key(x));
            assert(db.txn_ok(x));
            assert(b.txns[x] == db.txns[x]);
            assert forall|i: int| 0 <= i < b.txns[x].reads.len() implies b.read_ok(
                #[trigger] b.txns[x].reads[i],
            ) by {
                assert(db.read_ok(db.txns[x].reads[i]));
            }
        }
    }
    lemma_sound_marks(db, b);
}

/// Steps that put nothing in flight and change no transaction's level keep the
/// marks.
proof fn lemma_marks_kept<T: Versioned>(a: DbView<T>, b: DbView<T>)
    requires
        a.marks_ok(),
        a.owners_ok(),
        a.tables.len() <= b.tables.len(),
        forall|x: u64|
            #![trigger b.txns[x]]
            a.txns.contains_key(x) ==> b.txns[x].rules == a.txns[x].rules || !b.txns.contains_key(
                x,
            ),
        forall|t: int, k: Seq<u8>|
            #![trigger b.tables[t].slots[k]]
            0 <= t < b.tables.len() ==> settled(b.tables[t].slots[k].chain)
                == b.tables[t].slots[k].chain.len() || (t < a.tables.len()
                && b.tables[t].slots[k].chain == a.tables[t].slots[k].chain
                && b.tables[t].slots[k].lock == a.tables[t].slots[k].lock
                && b.tables[t].slots[k].lock != 0 && b.txns.contains_key(
                b.tables[t].slots[k].lock,
            )),
    ensures
        b.marks_ok(),
{
    assert forall|t: int, k: Seq<u8>, i: int|
        #![trigger b.tables[t].slots[k].chain[i]]
        0 <= t < b.tables.len() && settled(b.tables[t].slots[k].chain) <= i
            < b.tables[t].slots[k].chain.len() implies b.tables[t].slots[k].chain[i].writer
        == b.mark_of(b.tables[t].slots[k].lock) by {
        let y = b.tables[t].slots[k];
        let x = a.tables[t].slots[k].chain[i];
        let z = a.tables[t].slots[k];
        let w = b.txns[y.lock];
    }
}

/// Where slots stay as they were, or hold nothing in flight.
proof fn lemma_sound_marks<T: Versioned>(a: DbView<T>, b: DbView<T>)
    requires
        a.inv(),
        a.tables.len() == b.tables.len(),
        b.owners_ok(),
        forall|t: int| 0 <= t < b.tables.len() ==> (#[trigger] b.tables[t]).sound(
            b.clock.watermark,
        ),
        forall|x: u64|
            #![trigger b.txns[x]]
            a.txns.contains_key(x) ==> b.txns[x].rules == a.txns[x].rules || !b.txns.contains_key(
                x,
            ),
        forall|t: int, k: Seq<u8>|
            #![trigger b.tables[t].slots[k]]
            0 <= t < b.tables.len() && b.tables[t].slots[k].lock != 0 ==> b.tables[t].slots[k].chain
                == a.tables[t].slots[k].chain && b.tables[t].slots[k].lock
                == a.tables[t].slots[k].lock,
    ensures
        b.marks_ok(),
{
    assert forall|t: int, k: Seq<u8>|
        #![trigger b.tables[t].slots[k]]
        0 <= t < b.tables.len() implies settled(b.tables[t].slots[k].chain)
        == b.tables[t].slots[k].chain.len() || (t < a.tables.len() && b.tables[t].slots[k].chain
        == a.tables[t].slots[k].chain && b.tables[t].slots[k].lock == a.tables[t].slots[k].lock
        && b.tables[t].slots[k].lock != 0 && b.txns.contains_key(b.tables[t].slots[k].lock)) by {
        assert(b.tables[t].sound(b.clock.watermark));
        assert(b.tables[t].slots[k].ok_by(b.clock.watermark));
    }
    lemma_marks_kept(a, b);
}

/// Steps that touch no transaction but one, keep everybody's snapshots and leave
/// the clock alone.
proof fn lemma_txns_kept<T: Versioned>(a: DbView<T>, b: DbView<T>)
    requires
        a.inv(),
        b.clock == a.clock,
        b.gc_hint == a.gc_hint,
        b.tables.len() == a.tables.len(),
        forall|t: int| 0 <= t < a.tables.len() ==> #[trigger] b.tables[t].indexes == a.tables[t].indexes,
        b.txns.dom() == a.txns.dom(),
        forall|id: u64|
            #![trigger b.txns[id]]
            a.txns.contains_key(id) ==> b.txns[id].snapshot == a.txns[id].snapshot
                && b.txns[id].rules == a.txns[id].rules && (b.txns[id].reads == a.txns[id].reads || (
            a.txns[id].rules.validates_reads && forall|i: int|
                0 <= i < b.txns[id].reads.len() ==> b.read_ok(#[trigger] b.txns[id].reads[i]))),
        forall|id: u64|
            #![trigger b.states[id]]
            a.states.contains_key(id) ==> b.states.contains_key(id) && b.states[id].committed_at
                == a.states[id].committed_at && b.states[id].aborted == a.states[id].aborted,
    ensures
        b.active_ok(),
        forall|id: u64| #[trigger] b.txns.contains_key(id) ==> b.txn_ok(id),
{
    assert forall|s: int, ts: u64|
        #![trigger b.clock.active[s].count(ts)]
        0 <= s < SHARDS implies b.clock.active[s].count(ts) == holders(b.txns, s, ts).len() by {
        assert(a.clock.active[s].count(ts) == holders(a.txns, s, ts).len());
        assert(holders(b.txns, s, ts) =~= holders(a.txns, s, ts)) by {
            assert forall|id: u64| holders(b.txns, s, ts).contains(id) == holders(
                a.txns,
                s,
                ts,
            ).contains(id) by {
                let x = b.txns[id];
            }
        }
    }
    assert forall|id: u64| #[trigger] b.txns.contains_key(id) implies b.txn_ok(id) by {
        assert(a.txns.contains_key(id));
        assert(a.txn_ok(id));
        let x = b.txns[id];
        let y = b.states[id];
        if b.txns[id].reads == a.txns[id].reads {
            assert forall|i: int| 0 <= i < b.txns[id].reads.len() implies b.read_ok(
                #[trigger] b.txns[id].reads[i],
            ) by {
                assert(a.read_ok(a.txns[id].reads[i]));
                let t = a.txns[id].reads[i].table;
                assert(b.tables[t].indexes == a.tables[t].indexes);
            }
        }
    }
}

/// A read finds nothing that was committed after its snapshot.
pub proof fn lemma_seen_bound<T: Versioned>(
    tv: TableView<T>,
    scope: ScopeView<T>,
    s: u64,
    now: u64,
)
    requires
        tv.in_order(now),
    ensures
        forall|k: Seq<u8>| #[trigger]
            seen(tv.slots, scope, s).contains_key(k) ==> seen(tv.slots, scope, s)[k] <= s,
{
    assert forall|k: Seq<u8>| #[trigger] seen(tv.slots, scope, s).contains_key(k) implies seen(
        tv.slots,
        scope,
        s,
    )[k] <= s by {
        let p = |v: Version<T>| visible(v, s, NOBODY);
        let slot = tv.slots[k];
        assert(slot.ok_by(now));
        lemma_settled(slot.chain);
        lemma_newest_index(slot.chain, p);
        let i = newest_index(slot.chain, p);
        if i >= 0 {
            let v = slot.chain[i];
            assert(visible(v, s, NOBODY));
        }
    }
}

/// Reading.
pub proof fn lemma_read_inv<T: Versioned>(db: DbView<T>, id: u64, t: int, scope: ScopeView<T>)
    requires
        db.inv(),
        db.live(id),
        0 <= t < db.tables.len(),
        match scope {
            ScopeView::Row(k) => true,
            ScopeView::Rows(filter) => match *filter {
                Filter::Range { position, .. } => position < db.tables[t].indexes.len(),
                _ => true,
            },
        },
    ensures
        db.after_read(id, t, scope).inv(),
{
    let b = db.after_read(id, t, scope);
    if db.txns[id].rules.validates_reads {
        assert(db.tables[t].sound(db.clock.watermark));
        lemma_quiet_sound(db.tables[t], b.tables[t], db.clock.watermark);
        assert forall|u: int| 0 <= u < b.tables.len() implies (#[trigger] b.tables[u]).sound(
            b.clock.watermark,
        ) && b.tables[u].indexes == db.tables[u].indexes by {
            assert(db.tables[u].sound(db.clock.watermark));
        }
        assert(b.txns.dom() =~= db.txns.dom());
        assert(db.txn_ok(id));
        assert forall|i: int| 0 <= i < b.txns[id].reads.len() implies b.read_ok(
            #[trigger] b.txns[id].reads[i],
        ) by {
            if i < db.txns[id].reads.len() {
                assert(b.txns[id].reads[i] == db.txns[id].reads[i]);
                assert(db.read_ok(db.txns[id].reads[i]));
            } else {
                lemma_seen_bound(db.tables[t], scope, db.statement_snapshot(id), db.clock.watermark);
            }
        }
        lemma_txns_kept(db, b);
        assert(b.owners_ok()) by {
            assert forall|u: int, k: Seq<u8>|
                #![trigger b.tables[u].slots[k]]
                0 <= u < b.tables.len() && b.tables[u].slots[k].lock != 0 implies b.live(
                b.tables[u].slots[k].lock,
            ) by {
                assert(b.tables[u].slots[k].lock == db.tables[u].slots[k].lock);
            }
            assert forall|u: int, p: int, ik: Seq<u8>|
                #![trigger b.tables[u].claims[p].contains_key(ik)]
                0 <= u < b.tables.len() && 0 <= p < b.tables[u].claims.len()
                    && b.tables[u].claims[p].contains_key(ik) implies b.live(
                b.tables[u].claims[p][ik],
            ) by {
                assert(db.tables[u].claims[p].contains_key(ik));
            }
        }
        lemma_sound_marks(db, b);
    }
}

/// Writing.
pub proof fn lemma_write_inv<T: Versioned>(
    db: DbView<T>,
    id: u64,
    t: int,
    k: Seq<u8>,
    value: Option<Arc<T>>,
)
    requires
        db.inv(),
        db.live(id),
        0 <= t < db.tables.len(),
        value is Some ==> (*value->Some_0).spec_key() == k,
        db.write_conflict(id, t, k, unshared(value)) is None,
    ensures
        db.after_write(id, t, k, unshared(value)).inv(),
{
    lemma_shared(value);
    let b = db.after_write(id, t, k, unshared(value));
    let tv = db.tables[t];
    assert(db.txn_ok(id));
    assert(tv.sound(db.clock.watermark));
    let writer = db.mark_of(id);
    if value is Some {
        lemma_no_unique_conflict(tv, id, k, unshared(value)->Some_0, 0);
    }
    lemma_install_sound(tv, k, id, value, writer, b.tables[t].claims, db.clock.watermark);
    assert forall|u: int| 0 <= u < b.tables.len() implies (#[trigger] b.tables[u]).sound(
        b.clock.watermark,
    ) && b.tables[u].indexes == db.tables[u].indexes by {
        assert(db.tables[u].sound(db.clock.watermark));
    }
    lemma_txns_kept(db, b);
    assert forall|u: int, j: Seq<u8>|
        #![trigger b.tables[u].slots[j]]
        0 <= u < b.tables.len() && b.tables[u].slots[j].lock != 0 implies b.live(
        b.tables[u].slots[j].lock,
    ) by {
        let x = db.tables[u].slots[j];
    }
    assert forall|u: int, p: int, ik: Seq<u8>|
        #![trigger b.tables[u].claims[p].contains_key(ik)]
        0 <= u < b.tables.len() && 0 <= p < b.tables[u].claims.len()
            && b.tables[u].claims[p].contains_key(ik) implies b.live(b.tables[u].claims[p][ik]) by {
        let x = db.tables[u].claims[p].contains_key(ik);
    }
    assert forall|u: int, j: Seq<u8>, i: int|
        #![trigger b.tables[u].slots[j].chain[i]]
        0 <= u < b.tables.len() && settled(b.tables[u].slots[j].chain) <= i
            < b.tables[u].slots[j].chain.len() implies b.tables[u].slots[j].chain[i].writer
        == b.mark_of(b.tables[u].slots[j].lock) by {
        let slot = db.tables[u].slots[j];
        assert(db.tables[u].sound(db.clock.watermark));
        assert(slot.ok_by(db.clock.watermark));
        if u == t && j == k {
            lemma_installed(slot, id, value, writer, db.clock.watermark);
            lemma_settled(slot.chain);
            if i < slot.chain.len() {
                assert(b.tables[u].slots[j].chain[i] == slot.chain[i]);
                assert(db.tables[u].slots[j].chain[i].writer == db.mark_of(slot.lock));
            }
        } else {
            assert(db.tables[u].slots[j].chain[i].writer == db.mark_of(slot.lock));
        }
    }
}

/// Looking for conflicts.
pub proof fn lemma_detected_inv<T: Versioned>(db: DbView<T>, id: u64)
    requires
        db.inv(),
        db.live(id),
        db.txns[id].rules.validates_reads,
    ensures
        db.detected(id).0.inv(),
        db.detected(id).0.txns == db.txns,
        db.detected(id).0.clock == db.clock,
        db.detected(id).0.gc_hint == db.gc_hint,
        db.detected(id).0.tables.len() == db.tables.len(),
        forall|t: int|
            #![trigger db.detected(id).0.tables[t]]
            0 <= t < db.tables.len() ==> quieter(db.tables[t], db.detected(id).0.tables[t]),
{
    let b = db.detected(id).0;
    assert(db.txn_ok(id));
    assert forall|t: int|
        #![trigger b.tables[t]]
        0 <= t < db.tables.len() implies quieter(db.tables[t], b.tables[t]) && b.tables[t].sound(
        db.clock.watermark,
    ) by {
        assert(db.tables[t].sound(db.clock.watermark));
        lemma_quiet_sound(db.tables[t], b.tables[t], db.clock.watermark);
    }
    lemma_txns_kept(db, b);
    assert forall|u: int, j: Seq<u8>|
        #![trigger b.tables[u].slots[j]]
        0 <= u < b.tables.len() && b.tables[u].slots[j].lock != 0 implies b.live(
        b.tables[u].slots[j].lock,
    ) by {
        let x = db.tables[u].slots[j];
    }
    assert forall|u: int, p: int, ik: Seq<u8>|
        #![trigger b.tables[u].claims[p].contains_key(ik)]
        0 <= u < b.tables.len() && 0 <= p < b.tables[u].claims.len()
            && b.tables[u].claims[p].contains_key(ik) implies b.live(b.tables[u].claims[p][ik]) by {
        let x = db.tables[u].claims[p].contains_key(ik);
    }
    lemma_sound_marks(db, b);
}

/// `b` is `a` with fewer read locks.
pub open spec fn quieter<T: Versioned>(a: TableView<T>, b: TableView<T>) -> bool {
    &&& b.name == a.name
    &&& b.indexes == a.indexes
    &&& b.claims == a.claims
    &&& forall|k: Seq<u8>| #[trigger] a.slots.contains_key(k) ==> b.slots.contains_key(k)
    &&& forall|k: Seq<u8>|
        #![trigger b.slots[k]]
        b.slots[k].chain == a.slots[k].chain && b.slots[k].lock == a.slots[k].lock
            && b.slots[k].readers.subset_of(a.slots[k].readers)
}

/// Letting a snapshot go.
proof fn lemma_released_clock<T: Versioned>(db: DbView<T>, id: u64)
    requires
        db.inv(),
        db.live(id),
    ensures
        forall|s: int, ts: u64|
            #![trigger db.clock_without(id).active[s].count(ts)]
            0 <= s < SHARDS ==> db.clock_without(id).active[s].count(ts) == holders(
                db.txns.remove(id),
                s,
                ts,
            ).len(),
        total(db.clock_without(id).active) == db.txns.remove(id).dom().len(),
        db.txns.remove(id).dom().finite(),
{
    let sh = shard_of(id);
    let ts0 = db.txns[id].snapshot;
    let active = db.clock_without(id).active;
    lemma_pinned(db, id);
    assert(holders(db.txns, sh, ts0).contains(id));
    assert(db.clock.active[sh].count(ts0) == holders(db.txns, sh, ts0).len());
    assert(holders(db.txns, sh, ts0).finite());
    assert(holders(db.txns, sh, ts0).len() > 0) by {
        if holders(db.txns, sh, ts0).len() == 0 {
            assert(holders(db.txns, sh, ts0) =~= Set::empty());
        }
    }
    assert forall|s: int, ts: u64|
        #![trigger active[s].count(ts)]
        0 <= s < SHARDS implies active[s].count(ts) == holders(db.txns.remove(id), s, ts).len() by {
        lemma_holders_remove(db.txns, id, s, ts);
        assert(db.clock.active[s].count(ts) == holders(db.txns, s, ts).len());
    }
    lemma_total_update(db.clock.active, sh, db.clock.active[sh].remove(ts0));
    assert(db.txns.remove(id).dom() =~= db.txns.dom().remove(id));
}

/// A commit, before any tidying.
pub proof fn lemma_stamped_inv<T: Versioned>(db: DbView<T>, id: u64)
    requires
        db.inv(),
        db.live(id),
        db.clock.next < FOREVER,
    ensures
        db.stamped(id).inv(),
{
    let ts = db.clock.next;
    let b = db.stamped(id);
    assert(db.txn_ok(id));
    lemma_released_clock(db, id);
    assert forall|s: int, x: u64|
        #![trigger b.clock.active[s].count(x)]
        0 <= s < SHARDS implies b.clock.active[s].count(x) == holders(b.txns, s, x).len() by {
        assert(b.clock.active[s].count(x) == db.clock_without(id).active[s].count(x));
    }
    assert forall|t: int| 0 <= t < b.tables.len() implies (#[trigger] b.tables[t]).sound(
        b.clock.watermark,
    ) by {
        assert(db.tables[t].sound(db.clock.watermark));
        lemma_commit_sound(db.tables[t], id, ts, db.gc_hint, db.clock.watermark);
    }
    assert forall|x: u64| was_issued(db.clock, x) implies was_issued(b.clock, x) by {}
    lemma_finished(db, b, id);
    lemma_sound_marks(db, b);
}

/// What is left to say of a transaction that has finished either way.
proof fn lemma_finished<T: Versioned>(db: DbView<T>, b: DbView<T>, id: u64)
    requires
        db.inv(),
        db.live(id),
        b.txns == db.txns.remove(id),
        b.gc_hint == db.gc_hint,
        b.clock.issued == db.clock.issued,
        db.clock.watermark <= b.clock.watermark,
        b.tables.len() == db.tables.len(),
        b.states == db.states_after(id, 0) || b.states == db.states_after(id, b.clock.watermark),
        forall|t: int|
            #![trigger b.tables[t]]
            0 <= t < b.tables.len() ==> b.tables[t].indexes == db.tables[t].indexes && (forall|
                k: Seq<u8>,
            |
                #![trigger b.tables[t].slots[k]]
                b.tables[t].slots[k].lock == (if db.tables[t].slots[k].lock == id {
                    0
                } else {
                    db.tables[t].slots[k].lock
                })) && b.tables[t].claims == db.tables[t].claims.map_values(
                |c: Map<Seq<u8>, u64>| released(c, id),
            ),
    ensures
        b.owners_ok(),
        forall|x: u64| #[trigger] b.txns.contains_key(x) ==> b.txn_ok(x),
        forall|x: u64| #[trigger] b.states.contains_key(x) ==> b.states[x].id == TxnId(x),
{
    assert(db.txn_ok(id));
    assert forall|u: int, j: Seq<u8>|
        #![trigger b.tables[u].slots[j]]
        0 <= u < b.tables.len() && b.tables[u].slots[j].lock != 0 implies b.live(
        b.tables[u].slots[j].lock,
    ) by {
        let x = db.tables[u].slots[j];
    }
    assert forall|u: int, p: int, ik: Seq<u8>|
        #![trigger b.tables[u].claims[p].contains_key(ik)]
        0 <= u < b.tables.len() && 0 <= p < b.tables[u].claims.len()
            && b.tables[u].claims[p].contains_key(ik) implies b.live(b.tables[u].claims[p][ik]) by {
        let y = b.tables[u];
        assert(db.tables[u].claims[p].contains_key(ik));
    }
    assert forall|x: u64| #[trigger] b.txns.contains_key(x) implies b.txn_ok(x) by {
        assert(db.txns.contains_key(x));
        assert(db.txn_ok(x));
        assert(was_issued(b.clock, x)) by {
            let (s2, n2) = choose|s2: int, n2: int|
                0 <= s2 < SHARDS && 0 <= n2 < db.clock.issued[s2] && #[trigger] nth_id(s2, n2)
                    == x;
            assert(nth_id(s2, n2) == x && n2 < b.clock.issued[s2]);
        }
        assert forall|i: int| 0 <= i < b.txns[x].reads.len() implies b.read_ok(
            #[trigger] b.txns[x].reads[i],
        ) by {
            assert(db.read_ok(db.txns[x].reads[i]));
            let t = db.txns[x].reads[i].table;
            assert(b.tables[t].indexes == db.tables[t].indexes);
        }
    }
}

/// An abort.
pub proof fn lemma_rolled_back_inv<T: Versioned>(db: DbView<T>, id: u64)
    requires
        db.inv(),
        db.live(id),
    ensures
        db.rolled_back(id).inv(),
{
    let b = db.rolled_back(id);
    assert(db.txn_ok(id));
    lemma_released_clock(db, id);
    assert forall|t: int| 0 <= t < b.tables.len() implies (#[trigger] b.tables[t]).sound(
        b.clock.watermark,
    ) by {
        assert(db.tables[t].sound(db.clock.watermark));
        lemma_abort_sound(db.tables[t], id, db.clock.watermark);
    }
    lemma_finished(db, b, id);
    lemma_sound_marks(db, b);
}

/// The watermark exists: it is the smallest snapshot in use, or the read
/// watermark.
pub proof fn lemma_gc_watermark_exists(clock: OracleView) -> (ts: u64)
    ensures
        clock.is_gc_watermark(ts),
{
    if exists|s: u64| clock.is_active(s) {
        let s = choose|s: u64| clock.is_active(s);
        lemma_least_active(clock, s)
    } else {
        clock.watermark
    }
}

proof fn lemma_least_active(clock: OracleView, s: u64) -> (ts: u64)
    requires
        clock.is_active(s),
    ensures
        clock.is_gc_watermark(ts),
    decreases s,
{
    if exists|r: u64| clock.is_active(r) && r < s {
        let r = choose|r: u64| clock.is_active(r) && r < s;
        lemma_least_active(clock, r)
    } else {
        s
    }
}

/// The reclamation watermark is at most every running snapshot and the read
/// watermark.
pub proof fn lemma_gc_watermark_bounds<T: Versioned>(db: DbView<T>)
    requires
        db.inv(),
    ensures
        db.clock.is_gc_watermark(gc_watermark(db.clock)),
        gc_watermark(db.clock) <= db.clock.watermark,
        forall|id: u64| #[trigger]
            db.txns.contains_key(id) ==> gc_watermark(db.clock) <= db.txns[id].snapshot,
        db.gc_hint <= gc_watermark(db.clock),
{
    let g = lemma_gc_watermark_exists(db.clock);
    lemma_gc_watermark(db.clock, g);
    assert forall|id: u64| #[trigger] db.txns.contains_key(id) implies g
        <= db.txns[id].snapshot by {
        lemma_pinned(db, id);
    }
    if db.clock.is_active(g) {
        let s = choose|s: int|
            0 <= s < db.clock.active.len() && #[trigger] db.clock.active[s].contains(g);
        assert(db.clock.active[s].count(g) == holders(db.txns, s, g).len());
        assert(holders(db.txns, s, g).len() > 0);
        let id = holders(db.txns, s, g).choose();
        assert(holders(db.txns, s, g).contains(id)) by {
            if forall|x: u64| !holders(db.txns, s, g).contains(x) {
                assert(holders(db.txns, s, g) =~= Set::empty());
            }
        }
        assert(db.txns.contains_key(id));
        assert(db.txn_ok(id));
    }
}

/// The reclamation watermark never falls while transactions only finish or begin at
/// the read watermark.
pub proof fn lemma_watermark_rises<T: Versioned>(a: DbView<T>, b: DbView<T>)
    requires
        a.inv(),
        b.inv(),
        a.clock.watermark <= b.clock.watermark,
        forall|id: u64| #[trigger]
            b.txns.contains_key(id) ==> (a.txns.contains_key(id) && b.txns[id].snapshot
                == a.txns[id].snapshot) || b.txns[id].snapshot == a.clock.watermark,
    ensures
        gc_watermark(a.clock) <= gc_watermark(b.clock),
{
    lemma_gc_watermark_bounds(a);
    lemma_gc_watermark_bounds(b);
    let g = gc_watermark(b.clock);
    if b.clock.is_active(g) {
        let s = choose|s: int|
            0 <= s < b.clock.active.len() && #[trigger] b.clock.active[s].contains(g);
        assert(b.clock.active[s].count(g) == holders(b.txns, s, g).len());
        assert(holders(b.txns, s, g).len() > 0);
        let id = holders(b.txns, s, g).choose();
        assert(holders(b.txns, s, g).contains(id)) by {
            if forall|x: u64| !holders(b.txns, s, g).contains(x) {
                assert(holders(b.txns, s, g) =~= Set::empty());
            }
        }
        assert(b.txns.contains_key(id));
    }
}

/// A refresh of the reclamation hint.
pub proof fn lemma_refreshed_inv<T: Versioned>(db: DbView<T>)
    requires
        db.inv(),
    ensures
        db.refreshed().inv(),
{
    lemma_gc_watermark_bounds(db);
    let b = db.refreshed();
    assert forall|id: u64| #[trigger] b.txns.contains_key(id) implies b.txn_ok(id) by {
        assert(db.txns.contains_key(id));
        assert(db.txn_ok(id));
        assert forall|i: int| 0 <= i < b.txns[id].reads.len() implies b.read_ok(
            #[trigger] b.txns[id].reads[i],
        ) by {
            assert(db.read_ok(db.txns[id].reads[i]));
        }
    }
    assert(b.owners_ok()) by {
        assert(db.owners_ok());
        assert forall|u: int, j: Seq<u8>|
            #![trigger b.tables[u].slots[j]]
            0 <= u < b.tables.len() && b.tables[u].slots[j].lock != 0 implies b.live(
            b.tables[u].slots[j].lock,
        ) by {
            let x = db.tables[u].slots[j];
        }
    }
    lemma_sound_marks(db, b);
}

/// Pruning what no running transaction can reach, in whichever slots.
pub proof fn lemma_pruned_inv<T: Versioned>(db: DbView<T>, b: DbView<T>, w: u64)
    requires
        db.inv(),
        w < FOREVER,
        b == (DbView { tables: b.tables, ..db }),
        b.tables.len() == db.tables.len(),
        forall|t: int|
            #![trigger b.tables[t]]
            0 <= t < b.tables.len() ==> pruned_table(db.tables[t], b.tables[t], w),
    ensures
        b.inv(),
{
    assert forall|t: int| 0 <= t < b.tables.len() implies (#[trigger] b.tables[t]).sound(
        b.clock.watermark,
    ) && b.tables[t].indexes == db.tables[t].indexes by {
        assert(db.tables[t].sound(db.clock.watermark));
        lemma_pruned_sound(db.tables[t], b.tables[t], w, db.clock.watermark);
    }
    lemma_txns_kept(db, b);
    assert forall|u: int, j: Seq<u8>|
        #![trigger b.tables[u].slots[j]]
        0 <= u < b.tables.len() && b.tables[u].slots[j].lock != 0 implies b.live(
        b.tables[u].slots[j].lock,
    ) by {
        let x = db.tables[u].slots[j];
    }
    assert forall|u: int, p: int, ik: Seq<u8>|
        #![trigger b.tables[u].claims[p].contains_key(ik)]
        0 <= u < b.tables.len() && 0 <= p < b.tables[u].claims.len()
            && b.tables[u].claims[p].contains_key(ik) implies b.live(b.tables[u].claims[p][ik]) by {
        let x = db.tables[u].claims[p].contains_key(ik);
    }
    lemma_sound_marks(db, b);
}

/// `b` is `a` with some unlocked chains pruned at `w`.
pub open spec fn pruned_table<T: Versioned>(a: TableView<T>, b: TableView<T>, w: u64) -> bool {
    &&& b.indexes == a.indexes
    &&& b.claims == a.claims
    &&& forall|k: Seq<u8>| #[trigger] b.slots.contains_key(k)
    &&& forall|k: Seq<u8>|
        #![trigger b.slots[k]]
        b.slots[k].lock == a.slots[k].lock && (b.slots[k].chain == a.slots[k].chain || (
        a.slots[k].lock == 0 && b.slots[k].chain == crate::slot::pruned(a.slots[k].chain, w)))
}

/// A sweep.
pub proof fn lemma_swept_inv<T: Versioned>(db: DbView<T>)
    requires
        db.inv(),
    ensures
        db.swept().inv(),
{
    let b = db.swept();
    assert forall|t: int|
        #![trigger b.tables[t]]
        0 <= t < b.tables.len() implies pruned_table(db.tables[t], b.tables[t], db.gc_hint) by {
        assert(db.tables[t].sound(db.clock.watermark));
    }
    lemma_pruned_inv(db, b, db.gc_hint);
}

/// A commit.
pub proof fn lemma_committed_inv<T: Versioned>(db: DbView<T>, id: u64)
    requires
        db.inv(),
        db.live(id),
        db.clock.next < FOREVER,
    ensures
        db.committed(id).inv(),
{
    lemma_stamped_inv(db, id);
    lemma_refreshed_inv(db.stamped(id));
    lemma_swept_inv(db.stamped(id).refreshed());
}

/// Adding an empty table.
pub proof fn lemma_register_inv<T: Versioned>(db: DbView<T>, tv: TableView<T>)
    requires
        db.inv(),
        db.tables.len() < 65536,
        tv.slots == Map::<Seq<u8>, SlotView<T>>::total(|k: Seq<u8>| SlotView::<T>::empty()),
        tv.claims == Seq::new(tv.indexes.len(), |i: int| Map::<Seq<u8>, u64>::empty()),
    ensures
        (DbView { tables: db.tables.push(tv), ..db }).inv(),
{
    let b = DbView { tables: db.tables.push(tv), ..db };
    lemma_new_sound(tv, db.clock.watermark);
    assert forall|t: int| 0 <= t < b.tables.len() implies (#[trigger] b.tables[t]).sound(
        b.clock.watermark,
    ) by {
        if t < db.tables.len() {
            assert(db.tables[t].sound(db.clock.watermark));
        }
    }
    assert forall|id: u64| #[trigger] b.txns.contains_key(id) implies b.txn_ok(id) by {
        assert(db.txns.contains_key(id));
        assert(db.txn_ok(id));
        assert forall|i: int| 0 <= i < b.txns[id].reads.len() implies b.read_ok(
            #[trigger] b.txns[id].reads[i],
        ) by {
            assert(db.read_ok(db.txns[id].reads[i]));
        }
    }
    assert forall|u: int, j: Seq<u8>|
        #![trigger b.tables[u].slots[j]]
        0 <= u < b.tables.len() && b.tables[u].slots[j].lock != 0 implies b.live(
        b.tables[u].slots[j].lock,
    ) by {
        if u < db.tables.len() {
            let x = db.tables[u].slots[j];
        }
    }
    assert forall|u: int, p: int, ik: Seq<u8>|
        #![trigger b.tables[u].claims[p].contains_key(ik)]
        0 <= u < b.tables.len() && 0 <= p < b.tables[u].claims.len()
            && b.tables[u].claims[p].contains_key(ik) implies b.live(b.tables[u].claims[p][ik]) by {
        if u < db.tables.len() {
            let x = db.tables[u].claims[p].contains_key(ik);
        }
    }
    assert forall|t: int, k: Seq<u8>|
        #![trigger b.tables[t].slots[k]]
        0 <= t < b.tables.len() implies settled(b.tables[t].slots[k].chain)
        == b.tables[t].slots[k].chain.len() || (t < db.tables.len() && b.tables[t].slots[k].chain
        == db.tables[t].slots[k].chain && b.tables[t].slots[k].lock == db.tables[t].slots[k].lock
        && b.tables[t].slots[k].lock != 0 && b.txns.contains_key(b.tables[t].slots[k].lock)) by {
        assert(b.tables[t].sound(b.clock.watermark));
        assert(b.tables[t].slots[k].ok_by(b.clock.watermark));
        if t < db.tables.len() {
            let x = db.tables[t].slots[k];
        }
    }
    lemma_marks_kept(db, b);
}

/// Giving empty slots back.
pub proof fn lemma_compacted_inv<T: Versioned>(db: DbView<T>)
    requires
        db.inv(),
    ensures
        db.compacted().inv(),
        forall|t: int, k: Seq<u8>|
            #![trigger db.compacted().tables[t].slots[k]]
            0 <= t < db.tables.len() ==> db.compacted().tables[t].slots[k].chain
                == db.tables[t].slots[k].chain && db.compacted().tables[t].slots[k].lock
                == db.tables[t].slots[k].lock,
{
    let b = db.compacted();
    assert forall|t: int, k: Seq<u8>|
        #![trigger b.tables[t].slots[k]]
        0 <= t < db.tables.len() implies b.tables[t].slots[k].chain == db.tables[t].slots[k].chain
        && b.tables[t].slots[k].lock == db.tables[t].slots[k].lock by {
        assert(db.tables[t].sound(db.clock.watermark));
        assert(db.tables[t].slots[k].ok_by(db.clock.watermark));
        lemma_settled(db.tables[t].slots[k].chain);
        if db.tables[t].slots[k].chain.len() == 0 {
            assert(b.tables[t].slots[k].chain =~= db.tables[t].slots[k].chain);
        }
    }
    assert forall|t: int| 0 <= t < b.tables.len() implies (#[trigger] b.tables[t]).sound(
        b.clock.watermark,
    ) && b.tables[t].indexes == db.tables[t].indexes by {
        assert(db.tables[t].sound(db.clock.watermark));
        lemma_quiet_sound(db.tables[t], b.tables[t], db.clock.watermark);
    }
    lemma_txns_kept(db, b);
    assert forall|u: int, j: Seq<u8>|
        #![trigger b.tables[u].slots[j]]
        0 <= u < b.tables.len() && b.tables[u].slots[j].lock != 0 implies b.live(
        b.tables[u].slots[j].lock,
    ) by {
        let x = db.tables[u].slots[j];
    }
    assert forall|u: int, p: int, ik: Seq<u8>|
        #![trigger b.tables[u].claims[p].contains_key(ik)]
        0 <= u < b.tables.len() && 0 <= p < b.tables[u].claims.len()
            && b.tables[u].claims[p].contains_key(ik) implies b.live(b.tables[u].claims[p][ik]) by {
        let x = db.tables[u].claims[p].contains_key(ik);
    }
    lemma_sound_marks(db, b);
}

} // verus!
