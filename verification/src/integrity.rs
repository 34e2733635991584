//! What holds of every table between statements, and why every operation keeps
//! it: chains are in order, records sit under their own keys, what is in flight
//! is backed by claims, and no two records share a unique index key.

use std::sync::Arc;

use vstd::prelude::*;

use crate::chain::{lemma_aborted, lemma_current, lemma_installed, lemma_pruned, lemma_stamped};
use crate::slot::{
    current, dead, lemma_dead, lemma_settled, live_value, pruned, settled, stamped, SlotView,
};
use crate::ssi::TxnState;
use crate::table::{holds_index_key, installed, live_locks, taken, TableView};
use crate::time::{TxnId, FOREVER, IN_FLIGHT, NOBODY};
use crate::versioned::Versioned;

verus! {

/// The claims left once `id` has given its own up.
pub open spec fn released(claims: Map<Seq<u8>, u64>, id: u64) -> Map<Seq<u8>, u64> {
    Map::new(
        |ik: Seq<u8>| claims.contains_key(ik) && claims[ik] != id,
        |ik: Seq<u8>| claims[ik],
    )
}

impl<T: Versioned> TableView<T> {
    /// Every key has a slot in order, with nothing committed after `now`.
    pub open spec fn in_order(self, now: u64) -> bool {
        &&& forall|k: Seq<u8>| #[trigger] self.slots.contains_key(k)
        &&& self.claims.len() == self.indexes.len()
        &&& forall|k: Seq<u8>| (#[trigger] self.slots[k]).ok_by(now)
    }

    /// Every record sits under its own key.
    pub open spec fn keyed(self) -> bool {
        forall|k: Seq<u8>, i: int|
            #![trigger self.slots[k].chain[i]]
            0 <= i < self.slots[k].chain.len() && self.slots[k].chain[i].value is Some ==> (
            *self.slots[k].chain[i].value->Some_0).spec_key() == k
    }

    /// Whoever has a record in flight holds its unique index keys.
    pub open spec fn claimed(self) -> bool {
        forall|p: int, k: Seq<u8>, i: int|
            #![trigger self.indexes[p], self.slots[k].chain[i]]
            0 <= p < self.indexes.len() && self.indexes[p].unique && settled(self.slots[k].chain)
                <= i < self.slots[k].chain.len() && self.slots[k].chain[i].value is Some
                ==> self.holds_claim(
                p,
                (*self.slots[k].chain[i].value->Some_0).spec_index_key(p),
                self.slots[k].lock,
            )
    }

    /// Whether `id` holds this key of the index at `p`.
    pub open spec fn holds_claim(self, p: int, index_key: Seq<u8>, id: u64) -> bool {
        self.claims[p].contains_key(index_key) && self.claims[p][index_key] == id
    }

    /// No two records share a key of a unique index, whoever looks: in the
    /// committed database, or with any transaction's own writes on top.
    pub open spec fn unique(self) -> bool {
        forall|p: int, r: u64, ik: Seq<u8>, k1: Seq<u8>, k2: Seq<u8>|
            #![trigger holds_index_key(self.slots[k1], p, ik, r), holds_index_key(self.slots[k2], p, ik, r)]
            0 <= p < self.indexes.len() && self.indexes[p].unique && k1 != k2 && holds_index_key(
                self.slots[k1],
                p,
                ik,
                r,
            ) ==> !holds_index_key(self.slots[k2], p, ik, r)
    }

    pub open spec fn sound(self, now: u64) -> bool {
        &&& self.in_order(now)
        &&& self.keyed()
        &&& self.claimed()
        &&& self.unique()
    }

    /// The claims once `id` has claimed every unique index key of `x`.
    pub open spec fn claims_for(self, id: u64, x: T) -> Seq<Map<Seq<u8>, u64>> {
        Seq::new(
            self.claims.len(),
            |p: int|
                if self.indexes[p].unique {
                    self.claims[p].insert(x.spec_index_key(p), id)
                } else {
                    self.claims[p]
                },
        )
    }

    /// The table once `id` has committed at `ts`, with its slots pruned at
    /// `watermark`.
    pub open spec fn committed(self, id: u64, ts: u64, watermark: u64) -> Self {
        TableView {
            slots: Map::total(
                |k: Seq<u8>|
                    if self.slots[k].lock == id {
                        self.slots[k].committed(id, ts, watermark)
                    } else {
                        self.slots[k]
                    },
            ),
            claims: self.claims.map_values(|c: Map<Seq<u8>, u64>| released(c, id)),
            ..self
        }
    }

    /// The table once `id` has aborted.
    pub open spec fn aborted(self, id: u64) -> Self {
        TableView {
            slots: Map::total(
                |k: Seq<u8>|
                    if self.slots[k].lock == id {
                        self.slots[k].aborted()
                    } else {
                        self.slots[k]
                    },
            ),
            claims: self.claims.map_values(|c: Map<Seq<u8>, u64>| released(c, id)),
            ..self
        }
    }

    /// Whether `id` has written here.
    pub open spec fn written_by(self, id: u64) -> bool {
        exists|k: Seq<u8>| (#[trigger] self.slots[k]).lock == id
    }

    /// The table once the read locks on what `id` wrote have been cleared of
    /// transactions that no longer matter.
    pub open spec fn purged(self, id: u64, states: Map<u64, TxnState>, gc_watermark: u64) -> Self {
        TableView {
            slots: Map::total(
                |k: Seq<u8>|
                    if self.slots[k].lock == id {
                        self.slots[k].purged(states, gc_watermark)
                    } else {
                        self.slots[k]
                    },
            ),
            locks: if self.written_by(id) {
                live_locks(self.locks, states, gc_watermark)
            } else {
                self.locks
            },
            ..self
        }
    }
}

/// A table nothing was written to is sound.
pub proof fn lemma_new_sound<T: Versioned>(tv: TableView<T>, now: u64)
    requires
        tv.slots == Map::<Seq<u8>, SlotView<T>>::total(|k: Seq<u8>| SlotView::<T>::empty()),
        tv.claims.len() == tv.indexes.len(),
    ensures
        tv.sound(now),
{
    assert forall|k: Seq<u8>| (#[trigger] tv.slots[k]).ok_by(now) by {
        assert(tv.slots[k].chain.len() == 0);
    }
    assert forall|p: int, r: u64, ik: Seq<u8>, k: Seq<u8>| !#[trigger] holds_index_key(
        tv.slots[k],
        p,
        ik,
        r,
    ) by {
        lemma_current(tv.slots[k], r);
    }
}

/// Reading leaves a table sound: only read locks change.
pub proof fn lemma_quiet_sound<T: Versioned>(a: TableView<T>, b: TableView<T>, now: u64)
    requires
        a.sound(now),
        b.indexes == a.indexes,
        b.claims == a.claims,
        forall|k: Seq<u8>| #[trigger] b.slots.contains_key(k),
        forall|k: Seq<u8>|
            #![trigger b.slots[k]]
            b.slots[k].chain == a.slots[k].chain && b.slots[k].lock == a.slots[k].lock,
    ensures
        b.sound(now),
{
    assert forall|k: Seq<u8>| (#[trigger] b.slots[k]).ok_by(now) by {
        assert(a.slots[k].ok_by(now));
    }
    assert forall|p: int, r: u64, ik: Seq<u8>, k: Seq<u8>| #[trigger]
        holds_index_key(b.slots[k], p, ik, r) == holds_index_key(a.slots[k], p, ik, r) by {
        assert(b.slots[k].chain == a.slots[k].chain);
    }
    assert forall|p: int, k: Seq<u8>, i: int|
        #![trigger b.indexes[p], b.slots[k].chain[i]]
        0 <= p < b.indexes.len() && b.indexes[p].unique && settled(b.slots[k].chain) <= i
            < b.slots[k].chain.len() && b.slots[k].chain[i].value is Some implies b.holds_claim(
        p,
        (*b.slots[k].chain[i].value->Some_0).spec_index_key(p),
        b.slots[k].lock,
    ) by {
        assert(a.slots[k].chain[i] == b.slots[k].chain[i]);
        assert(a.indexes[p] == b.indexes[p]);
    }
    assert forall|k: Seq<u8>, i: int|
        #![trigger b.slots[k].chain[i]]
        0 <= i < b.slots[k].chain.len() && b.slots[k].chain[i].value is Some implies (
    *b.slots[k].chain[i].value->Some_0).spec_key() == k by {
        assert(a.slots[k].chain[i] == b.slots[k].chain[i]);
    }
}

/// Writing a record whose unique keys are claimed and free keeps a table sound.
pub proof fn lemma_install_sound<T: Versioned>(
    tv: TableView<T>,
    k: Seq<u8>,
    id: u64,
    value: Option<Arc<T>>,
    writer: Option<TxnId>,
    claims: Seq<Map<Seq<u8>, u64>>,
    now: u64,
)
    requires
        tv.sound(now),
        0 < id < IN_FLIGHT,
        tv.slots[k].lock == 0 || tv.slots[k].lock == id,
        match value {
            Some(x) => (*x).spec_key() == k && claims == tv.claims_for(id, *x) && forall|p: int|
                #![trigger tv.indexes[p]]
                0 <= p < tv.indexes.len() && tv.indexes[p].unique ==> !taken(
                    tv.slots,
                    p,
                    (*x).spec_index_key(p),
                    k,
                    id,
                ) && (tv.claims[p].contains_key((*x).spec_index_key(p)) ==> tv.claims[p][(
                *x).spec_index_key(p)] == id),
            None => claims == tv.claims,
        },
    ensures
        (TableView {
            slots: tv.slots.insert(k, installed(tv.slots[k], id, value, writer)),
            claims,
            ..tv
        }).sound(now),
{
    let slot = tv.slots[k];
    let after = installed(slot, id, value, writer);
    let b = TableView { slots: tv.slots.insert(k, after), claims, ..tv };
    assert(slot.ok_by(now));
    lemma_installed(slot, id, value, writer, now);
    lemma_settled(slot.chain);
    assert forall|j: Seq<u8>| (#[trigger] b.slots[j]).ok_by(now) by {
        assert(tv.slots[j].ok_by(now));
    }
    assert forall|j: Seq<u8>, i: int|
        #![trigger b.slots[j].chain[i]]
        0 <= i < b.slots[j].chain.len() && b.slots[j].chain[i].value is Some implies (
    *b.slots[j].chain[i].value->Some_0).spec_key() == j by {
        if j != k || i < slot.chain.len() {
            assert(b.slots[j].chain[i] == tv.slots[j].chain[i]);
        }
    }
    assert forall|p: int, ik: Seq<u8>, who: u64|
        0 <= p < tv.indexes.len() && tv.holds_claim(p, ik, who)
            implies #[trigger] b.holds_claim(p, ik, who) by {
        assert(tv.indexes[p].unique || !tv.indexes[p].unique);
    }
    assert forall|p: int, j: Seq<u8>, i: int|
        #![trigger b.indexes[p], b.slots[j].chain[i]]
        0 <= p < b.indexes.len() && b.indexes[p].unique && settled(b.slots[j].chain) <= i
            < b.slots[j].chain.len() && b.slots[j].chain[i].value is Some implies b.holds_claim(
        p,
        (*b.slots[j].chain[i].value->Some_0).spec_index_key(p),
        b.slots[j].lock,
    ) by {
        if j != k {
            assert(b.slots[j] == tv.slots[j]);
            assert(tv.holds_claim(
                p,
                (*tv.slots[j].chain[i].value->Some_0).spec_index_key(p),
                tv.slots[j].lock,
            ));
        } else if i < slot.chain.len() {
            assert(b.slots[j].chain[i] == tv.slots[j].chain[i]);
            assert(tv.holds_claim(
                p,
                (*tv.slots[j].chain[i].value->Some_0).spec_index_key(p),
                tv.slots[j].lock,
            ));
            assert(tv.slots[j].lock == id);
        }
    }
    assert forall|p: int, r: u64, ik: Seq<u8>, j: Seq<u8>| #[trigger]
        holds_index_key(b.slots[j], p, ik, r) == (if j == k && r == id {
            match value {
                Some(x) => (*x).spec_index_key(p) == ik,
                None => false,
            }
        } else {
            holds_index_key(tv.slots[j], p, ik, r)
        }) by {
        if j == k {
            lemma_current(slot, r);
            lemma_current(after, r);
            assert(after.chain.last().value == value);
            if settled(slot.chain) > 0 {
                assert(after.chain[settled(slot.chain) - 1] == slot.chain[settled(slot.chain)
                    - 1]);
            }
        }
    }
    assert forall|p: int, r: u64, ik: Seq<u8>, k1: Seq<u8>, k2: Seq<u8>|
        #![trigger holds_index_key(b.slots[k1], p, ik, r), holds_index_key(b.slots[k2], p, ik, r)]
        0 <= p < b.indexes.len() && b.indexes[p].unique && k1 != k2 && holds_index_key(
            b.slots[k1],
            p,
            ik,
            r,
        ) implies !holds_index_key(b.slots[k2], p, ik, r) by {
        if r == id && k1 == k {
            assert(!taken(tv.slots, p, ik, k, id));
            assert(!holds_index_key(tv.slots[k2], p, ik, r));
        } else if r == id && k2 == k {
            assert(holds_index_key(tv.slots[k1], p, ik, r));
            if holds_index_key(b.slots[k2], p, ik, r) {
                assert(!taken(tv.slots, p, ik, k, id));
            }
        } else {
            assert(holds_index_key(tv.slots[k1], p, ik, r));
            assert(!holds_index_key(tv.slots[k2], p, ik, r));
        }
    }
}

/// What `r` finds in a slot once the transaction that holds it has committed.
proof fn lemma_committed_slot<T: Versioned>(
    slot: SlotView<T>,
    id: u64,
    ts: u64,
    w: u64,
    now: u64,
    r: u64,
)
    requires
        slot.ok_by(now),
        slot.lock == id,
        0 < id,
        now < ts < FOREVER,
        w < FOREVER,
    ensures
        slot.committed(id, ts, w).ok_by(ts),
        settled(slot.committed(id, ts, w).chain) == slot.committed(id, ts, w).chain.len(),
        live_value(current(slot.committed(id, ts, w).chain, r)) == live_value(
            current(slot.chain, id),
        ),
{
    let mid = SlotView { chain: stamped(slot.chain, id, ts), lock: 0, readers: slot.readers };
    lemma_stamped(slot, id, ts, now);
    lemma_pruned(mid, w, ts);
    lemma_current(mid, NOBODY);
    lemma_current(slot, id);
    lemma_current(slot.committed(id, ts, w), r);
    lemma_current(slot.committed(id, ts, w), NOBODY);
}

/// A commit keeps a table sound.
pub proof fn lemma_commit_sound<T: Versioned>(
    tv: TableView<T>,
    id: u64,
    ts: u64,
    w: u64,
    now: u64,
)
    requires
        tv.sound(now),
        0 < id,
        now < ts < FOREVER,
        w < FOREVER,
    ensures
        tv.committed(id, ts, w).sound(ts),
{
    let b = tv.committed(id, ts, w);
    assert forall|k: Seq<u8>|
        #![trigger b.slots[k]]
        b.slots[k].ok_by(ts) && (tv.slots[k].lock == id ==> b.slots[k].lock == 0 && settled(
            b.slots[k].chain,
        ) == b.slots[k].chain.len()) by {
        assert(tv.slots[k].ok_by(now));
        if tv.slots[k].lock == id {
            lemma_committed_slot(tv.slots[k], id, ts, w, now, NOBODY);
        }
    }
    assert forall|k: Seq<u8>, i: int|
        #![trigger b.slots[k].chain[i]]
        0 <= i < b.slots[k].chain.len() && b.slots[k].chain[i].value is Some implies (
    *b.slots[k].chain[i].value->Some_0).spec_key() == k by {
        if tv.slots[k].lock == id {
            let mid = stamped(tv.slots[k].chain, id, ts);
            lemma_dead(mid, w);
            let d = dead(mid, w) as int;
            assert(b.slots[k].chain[i] == mid[i + d]);
            assert(tv.slots[k].chain[i + d].value == b.slots[k].chain[i].value);
        } else {
            assert(b.slots[k].chain[i] == tv.slots[k].chain[i]);
        }
    }
    assert forall|p: int, k: Seq<u8>, i: int|
        #![trigger b.indexes[p], b.slots[k].chain[i]]
        0 <= p < b.indexes.len() && b.indexes[p].unique && settled(b.slots[k].chain) <= i
            < b.slots[k].chain.len() && b.slots[k].chain[i].value is Some implies b.holds_claim(
        p,
        (*b.slots[k].chain[i].value->Some_0).spec_index_key(p),
        b.slots[k].lock,
    ) by {
        assert(tv.slots[k].lock != id);
        assert(b.slots[k] == tv.slots[k]);
        assert(tv.indexes[p].unique);
        assert(tv.holds_claim(
            p,
            (*tv.slots[k].chain[i].value->Some_0).spec_index_key(p),
            tv.slots[k].lock,
        ));
    }
    assert forall|p: int, r: u64, ik: Seq<u8>, k: Seq<u8>| #[trigger]
        holds_index_key(b.slots[k], p, ik, r) == (if tv.slots[k].lock == id {
            holds_index_key(tv.slots[k], p, ik, id)
        } else {
            holds_index_key(tv.slots[k], p, ik, r)
        }) by {
        if tv.slots[k].lock == id {
            assert(tv.slots[k].ok_by(now));
            lemma_committed_slot(tv.slots[k], id, ts, w, now, r);
        }
    }
    assert forall|p: int, r: u64, ik: Seq<u8>, k1: Seq<u8>, k2: Seq<u8>|
        #![trigger holds_index_key(b.slots[k1], p, ik, r), holds_index_key(b.slots[k2], p, ik, r)]
        0 <= p < b.indexes.len() && b.indexes[p].unique && k1 != k2 && holds_index_key(
            b.slots[k1],
            p,
            ik,
            r,
        ) implies !holds_index_key(b.slots[k2], p, ik, r) by {
        let m1 = tv.slots[k1].lock == id;
        let m2 = tv.slots[k2].lock == id;
        if m1 && !m2 {
            lemma_claims_exclude(tv, p, r, ik, k1, k2, id, now);
        } else if m2 && !m1 {
            if holds_index_key(b.slots[k2], p, ik, r) {
                lemma_claims_exclude(tv, p, r, ik, k2, k1, id, now);
            }
        } else if m1 && m2 {
            assert(holds_index_key(tv.slots[k1], p, ik, id));
            assert(!holds_index_key(tv.slots[k2], p, ik, id));
        } else {
            assert(holds_index_key(tv.slots[k1], p, ik, r));
            assert(!holds_index_key(tv.slots[k2], p, ik, r));
        }
    }
}

/// A key that `id` has in flight is nobody else's, committed or in flight.
proof fn lemma_claims_exclude<T: Versioned>(
    tv: TableView<T>,
    p: int,
    r: u64,
    ik: Seq<u8>,
    mine: Seq<u8>,
    other: Seq<u8>,
    id: u64,
    now: u64,
)
    requires
        tv.sound(now),
        0 < id,
        0 <= p < tv.indexes.len(),
        tv.indexes[p].unique,
        mine != other,
        tv.slots[mine].lock == id,
        tv.slots[other].lock != id,
        holds_index_key(tv.slots[mine], p, ik, id),
    ensures
        !holds_index_key(tv.slots[other], p, ik, r),
{
    let a = tv.slots[mine];
    let b = tv.slots[other];
    assert(a.ok_by(now) && b.ok_by(now));
    lemma_current(a, id);
    lemma_current(b, r);
    lemma_current(b, id);
    lemma_settled(a.chain);
    lemma_settled(b.chain);
    if b.lock == r && r != 0 {
        if holds_index_key(b, p, ik, r) {
            let i = a.chain.len() - 1;
            let j = b.chain.len() - 1;
            assert(a.chain[i].value is Some && b.chain[j].value is Some);
            assert(tv.indexes[p] == tv.indexes[p]);
            assert(tv.holds_claim(
                p,
                (*tv.slots[mine].chain[i].value->Some_0).spec_index_key(p),
                tv.slots[mine].lock,
            ));
            assert(tv.holds_claim(
                p,
                (*tv.slots[other].chain[j].value->Some_0).spec_index_key(p),
                tv.slots[other].lock,
            ));
        }
    } else {
        assert(!holds_index_key(tv.slots[other], p, ik, id));
    }
}

/// An abort keeps a table sound.
pub proof fn lemma_abort_sound<T: Versioned>(tv: TableView<T>, id: u64, now: u64)
    requires
        tv.sound(now),
        0 < id,
    ensures
        tv.aborted(id).sound(now),
{
    let b = tv.aborted(id);
    assert forall|k: Seq<u8>|
        #![trigger b.slots[k]]
        b.slots[k].ok_by(now) && (tv.slots[k].lock == id ==> b.slots[k].lock == 0 && settled(
            b.slots[k].chain,
        ) == b.slots[k].chain.len()) by {
        assert(tv.slots[k].ok_by(now));
        lemma_aborted(tv.slots[k], now);
    }
    assert forall|k: Seq<u8>, i: int|
        #![trigger b.slots[k].chain[i]]
        0 <= i < b.slots[k].chain.len() && b.slots[k].chain[i].value is Some implies (
    *b.slots[k].chain[i].value->Some_0).spec_key() == k by {
        lemma_settled(tv.slots[k].chain);
        assert(b.slots[k].chain[i] == tv.slots[k].chain[i]);
    }
    assert forall|p: int, k: Seq<u8>, i: int|
        #![trigger b.indexes[p], b.slots[k].chain[i]]
        0 <= p < b.indexes.len() && b.indexes[p].unique && settled(b.slots[k].chain) <= i
            < b.slots[k].chain.len() && b.slots[k].chain[i].value is Some implies b.holds_claim(
        p,
        (*b.slots[k].chain[i].value->Some_0).spec_index_key(p),
        b.slots[k].lock,
    ) by {
        assert(tv.slots[k].lock != id);
        assert(b.slots[k] == tv.slots[k]);
        assert(tv.indexes[p].unique);
        assert(tv.holds_claim(
            p,
            (*tv.slots[k].chain[i].value->Some_0).spec_index_key(p),
            tv.slots[k].lock,
        ));
    }
    assert forall|p: int, r: u64, ik: Seq<u8>, k: Seq<u8>| #[trigger]
        holds_index_key(b.slots[k], p, ik, r) == holds_index_key(
            tv.slots[k],
            p,
            ik,
            if r == id {
                NOBODY
            } else {
                r
            },
        ) by {
        let slot = tv.slots[k];
        assert(slot.ok_by(now));
        lemma_settled(slot.chain);
        lemma_current(slot, r);
        lemma_current(slot, NOBODY);
        if slot.lock == id {
            lemma_aborted(slot, now);
            lemma_current(slot.aborted(), r);
            if settled(slot.chain) > 0 {
                assert(slot.aborted().chain[settled(slot.chain) - 1] == slot.chain[settled(
                    slot.chain,
                ) - 1]);
            }
        }
    }
}

/// Replacing unlocked chains by pruned ones keeps a table sound.
pub proof fn lemma_pruned_sound<T: Versioned>(a: TableView<T>, b: TableView<T>, w: u64, now: u64)
    requires
        a.sound(now),
        w < FOREVER,
        b.indexes == a.indexes,
        b.claims == a.claims,
        forall|k: Seq<u8>| #[trigger] b.slots.contains_key(k),
        forall|k: Seq<u8>|
            #![trigger b.slots[k]]
            b.slots[k].lock == a.slots[k].lock && (b.slots[k].chain == a.slots[k].chain || (
            a.slots[k].lock == 0 && b.slots[k].chain == pruned(a.slots[k].chain, w))),
    ensures
        b.sound(now),
{
    assert forall|k: Seq<u8>| (#[trigger] b.slots[k]).ok_by(now) by {
        assert(a.slots[k].ok_by(now));
        if b.slots[k].chain != a.slots[k].chain {
            lemma_pruned(a.slots[k], w, now);
        }
    }
    assert forall|k: Seq<u8>, i: int|
        #![trigger b.slots[k].chain[i]]
        0 <= i < b.slots[k].chain.len() && b.slots[k].chain[i].value is Some implies (
    *b.slots[k].chain[i].value->Some_0).spec_key() == k by {
        if b.slots[k].chain != a.slots[k].chain {
            lemma_dead(a.slots[k].chain, w);
            let d = dead(a.slots[k].chain, w) as int;
            assert(a.slots[k].chain[i + d] == b.slots[k].chain[i]);
        } else {
            assert(a.slots[k].chain[i] == b.slots[k].chain[i]);
        }
    }
    assert forall|p: int, k: Seq<u8>, i: int|
        #![trigger b.indexes[p], b.slots[k].chain[i]]
        0 <= p < b.indexes.len() && b.indexes[p].unique && settled(b.slots[k].chain) <= i
            < b.slots[k].chain.len() && b.slots[k].chain[i].value is Some implies b.holds_claim(
        p,
        (*b.slots[k].chain[i].value->Some_0).spec_index_key(p),
        b.slots[k].lock,
    ) by {
        assert(b.slots[k].ok_by(now));
        assert(b.slots[k].lock != 0);
        assert(b.slots[k].chain[i] == a.slots[k].chain[i]);
        assert(a.indexes[p].unique);
        assert(a.holds_claim(
            p,
            (*a.slots[k].chain[i].value->Some_0).spec_index_key(p),
            a.slots[k].lock,
        ));
    }
    assert forall|p: int, r: u64, ik: Seq<u8>, k: Seq<u8>| #[trigger]
        holds_index_key(b.slots[k], p, ik, r) == holds_index_key(a.slots[k], p, ik, r) by {
        assert(b.slots[k].ok_by(now));
        assert(a.slots[k].ok_by(now));
        if b.slots[k].chain != a.slots[k].chain {
            lemma_pruned(a.slots[k], w, now);
            lemma_current(a.slots[k], r);
            lemma_current(a.slots[k], NOBODY);
            lemma_current(b.slots[k], r);
            lemma_current(b.slots[k], NOBODY);
        }
    }
}

} // verus!
