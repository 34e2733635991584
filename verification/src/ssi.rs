//! Serializable snapshot isolation: bookkeeping for read/write conflicts.
//!
//! A read/write conflict from `R` to `W` means that `R` read a version and `W`
//! overwrote it: `R` has to be ordered before `W`, even though `W` wrote second.
//! A transaction with a conflict in both directions is a pivot and may not
//! commit.

use std::collections::HashMap;

use vstd::prelude::*;

use crate::time::{Timestamp, TxnId};

verus! {

broadcast use vstd::std_specs::hash::group_hash_axioms;

/// Conflict state of one serializable transaction.
///
/// It outlives the transaction: read locks and version records keep referring
/// to it after commit.
#[derive(Clone, Copy, PartialEq, Eq, Debug, Structural)]
pub struct TxnState {
    pub id: TxnId,
    pub snapshot: Timestamp,
    /// A concurrent transaction overwrote something this one read.
    pub out_conflict: bool,
    /// A concurrent transaction read something this one overwrote.
    pub in_conflict: bool,
    /// Commit timestamp, or 0 while running.
    pub committed_at: u64,
    pub aborted: bool,
}

impl TxnState {
    /// Whether the transaction's read locks can be discarded: it aborted, or it
    /// committed and no live snapshot predates its commit.
    pub open spec fn expired_at(self, gc_watermark: u64) -> bool {
        self.aborted || (self.committed_at != 0 && self.committed_at <= gc_watermark)
    }

    /// Both conflicts present.
    pub open spec fn pivot(self) -> bool {
        self.in_conflict && self.out_conflict
    }

    pub fn new(id: TxnId, snapshot: Timestamp) -> (s: Self)
        ensures
            s == (TxnState {
                id,
                snapshot,
                out_conflict: false,
                in_conflict: false,
                committed_at: 0,
                aborted: false,
            }),
    {
        TxnState {
            id,
            snapshot,
            out_conflict: false,
            in_conflict: false,
            committed_at: 0,
            aborted: false,
        }
    }

    pub fn id(&self) -> (r: TxnId)
        ensures
            r == self.id,
    {
        self.id
    }

    pub fn snapshot(&self) -> (r: Timestamp)
        ensures
            r == self.snapshot,
    {
        self.snapshot
    }

    pub fn set_out_conflict(&mut self)
        ensures
            *final(self) == (TxnState { out_conflict: true, ..*old(self) }),
    {
        self.out_conflict = true;
    }

    pub fn set_in_conflict(&mut self)
        ensures
            *final(self) == (TxnState { in_conflict: true, ..*old(self) }),
    {
        self.in_conflict = true;
    }

    /// Whether a concurrent transaction overwrote something this one read.
    pub fn has_out_conflict(&self) -> (r: bool)
        ensures
            r == self.out_conflict,
    {
        self.out_conflict
    }

    /// Both conflicts present: this transaction cannot be allowed to commit.
    pub fn is_pivot(&self) -> (r: bool)
        ensures
            r == self.pivot(),
    {
        self.in_conflict && self.out_conflict
    }

    pub fn is_committed(&self) -> (r: bool)
        ensures
            r == (self.committed_at != 0),
    {
        self.committed_at != 0
    }

    pub fn is_aborted(&self) -> (r: bool)
        ensures
            r == self.aborted,
    {
        self.aborted
    }

    pub fn mark_committed(&mut self, ts: Timestamp)
        ensures
            *final(self) == (TxnState { committed_at: ts.0, ..*old(self) }),
    {
        self.committed_at = ts.raw();
    }

    pub fn mark_aborted(&mut self)
        ensures
            *final(self) == (TxnState { aborted: true, ..*old(self) }),
    {
        self.aborted = true;
    }

    /// Whether this transaction's read locks can be discarded.
    ///
    /// An aborted transaction's reads never mattered. A committed one's stop
    /// mattering once no live snapshot predates its commit, which is what the
    /// reclamation watermark tracks.
    pub fn is_expired(&self, gc_watermark: Timestamp) -> (r: bool)
        ensures
            r == self.expired_at(gc_watermark.0),
    {
        if self.aborted {
            return true;
        }
        if self.committed_at == 0 {
            false  // still running

        } else {
            self.committed_at <= gc_watermark.0
        }
    }
}

/// Whether `id`'s read locks can be discarded. A transaction no state is kept
/// of any more constrains nobody.
pub open spec fn expired(states: Map<u64, TxnState>, id: u64, gc_watermark: u64) -> bool {
    states.contains_key(id) ==> states[id].expired_at(gc_watermark)
}

/// `states` with an incoming conflict on every transaction in `ids`.
pub open spec fn with_incoming(states: Map<u64, TxnState>, ids: Set<u64>) -> Map<u64, TxnState> {
    states.map_entries(
        |id: u64, s: TxnState|
            if ids.contains(id) {
                TxnState { in_conflict: true, ..s }
            } else {
                s
            },
    )
}

/// `states` with an outgoing conflict on every transaction in `ids`.
pub open spec fn with_outgoing(states: Map<u64, TxnState>, ids: Set<u64>) -> Map<u64, TxnState> {
    states.map_entries(
        |id: u64, s: TxnState|
            if ids.contains(id) {
                TxnState { out_conflict: true, ..s }
            } else {
                s
            },
    )
}

/// The states of transactions that can still matter.
pub open spec fn live_states(states: Map<u64, TxnState>, gc_watermark: u64) -> Map<u64, TxnState> {
    Map::new(
        |id: u64| states.contains_key(id) && !states[id].expired_at(gc_watermark),
        |id: u64| states[id],
    )
}

/// The conflict states the engine currently keeps, by transaction id.
pub struct TxnTable {
    pub states: HashMap<u64, TxnState>,
    /// Whose states are kept.
    pub ids: Vec<u64>,
}

impl View for TxnTable {
    type V = Map<u64, TxnState>;

    open spec fn view(&self) -> Map<u64, TxnState> {
        self.states@
    }
}

impl TxnTable {
    /// Every kept state is listed, once.
    pub open spec fn wf(&self) -> bool {
        &&& self.ids@.no_duplicates()
        &&& forall|id: u64| self.states@.contains_key(id) <==> #[trigger] self.ids@.contains(id)
    }

    pub fn new() -> (t: Self)
        ensures
            t.wf(),
            t@ == Map::<u64, TxnState>::empty(),
    {
        TxnTable { states: HashMap::new(), ids: Vec::new() }
    }

    /// The state kept of `id`, if any.
    pub fn get(&self, id: u64) -> (s: Option<TxnState>)
        ensures
            s == if self@.contains_key(id) {
                Some(self@[id])
            } else {
                None
            },
    {
        match self.states.get(&id) {
            Some(s) => Some(*s),
            None => None,
        }
    }

    /// Keep `state` under its transaction's id.
    pub fn put(&mut self, state: TxnState)
        requires
            old(self).wf(),
        ensures
            final(self).wf(),
            final(self)@ == old(self)@.insert(state.id.0, state),
    {
        let id: u64 = state.id.0;
        if self.states.get(&id).is_none() {
            assert(!self.ids@.contains(id));
            self.ids.push(id);
            assert(self.ids@.last() == id);
            assert forall|x: u64| old(self).ids@.contains(x) implies #[trigger] self.ids@.contains(
                x,
            ) by {
                let j = choose|j: int| 0 <= j < old(self).ids@.len() && old(self).ids@[j] == x;
                assert(self.ids@[j] == x);
            }
        }
        self.states.insert(id, state);
        assert forall|x: u64| self.states@.contains_key(x) <==> #[trigger] self.ids@.contains(x) by {
            if self.ids@.contains(x) && x != id {
                let j = choose|j: int| 0 <= j < self.ids@.len() && self.ids@[j] == x;
                assert(old(self).ids@[j] == x);
                assert(old(self).ids@.contains(x));
            }
            if old(self).states@.contains_key(x) {
                assert(old(self).ids@.contains(x));
            }
        }
    }

    /// Forget the states of transactions that can no longer matter.
    pub fn purge(&mut self, gc_watermark: Timestamp)
        requires
            old(self).wf(),
        ensures
            final(self).wf(),
            final(self)@ == live_states(old(self)@, gc_watermark.0),
    {
        let ghost all = self.ids@;
        let mut kept: Vec<u64> = Vec::new();
        let mut i: usize = 0;
        while i < self.ids.len()
            invariant
                i <= all.len(),
                self.ids@ == all,
                all == old(self).ids@,
                all.no_duplicates(),
                old(self).wf(),
                kept@.no_duplicates(),
                forall|x: u64|
                    #![trigger self.states@.contains_key(x)]
                    #![trigger old(self).states@.contains_key(x)]
                    self.states@.contains_key(x) <==> old(self).states@.contains_key(x) && !((
                    exists|j: int| 0 <= j < i && all[j] == x)
                        && old(self).states@[x].expired_at(gc_watermark.0)),
                forall|x: u64| self.states@.contains_key(x) ==> self.states@[x] == old(
                    self,
                ).states@[x],
                forall|x: u64| #[trigger]
                    kept@.contains(x) <==> (exists|j: int| 0 <= j < i && all[j] == x)
                        && !old(self).states@[x].expired_at(gc_watermark.0),
            decreases all.len() - i,
        {
            let id: u64 = self.ids[i];
            let ghost before = kept@;
            let ghost map = self.states@;
            assert(all.contains(id));
            assert(old(self).states@.contains_key(id));
            assert(!kept@.contains(id));
            let gone: bool = self.is_expired(id, gc_watermark);
            assert(self.states@.contains_key(id));
            if gone {
                self.states.remove(&id);
            } else {
                kept.push(id);
                assert(kept@.last() == id);
            }
            assert forall|x: u64| #[trigger]
                kept@.contains(x) <==> (exists|j: int| 0 <= j < i + 1 && all[j] == x)
                    && !old(self).states@[x].expired_at(gc_watermark.0) by {
                if kept@.contains(x) {
                    let k = choose|k: int| 0 <= k < kept@.len() && kept@[k] == x;
                    if k < before.len() {
                        assert(before[k] == x);
                        assert(before.contains(x));
                    } else {
                        assert(all[i as int] == x);
                    }
                }
                if (exists|j: int| 0 <= j < i + 1 && all[j] == x)
                    && !old(self).states@[x].expired_at(gc_watermark.0) {
                    let j = choose|j: int| 0 <= j < i + 1 && all[j] == x;
                    if j < i {
                        assert(before.contains(x));
                        let k = choose|k: int| 0 <= k < before.len() && before[k] == x;
                        assert(kept@[k] == x);
                    }
                }
            }
            assert forall|x: u64|
                #![trigger self.states@.contains_key(x)]
                #![trigger old(self).states@.contains_key(x)]
                self.states@.contains_key(x) <==> old(self).states@.contains_key(x) && !((
                exists|j: int| 0 <= j < i + 1 && all[j] == x)
                    && old(self).states@[x].expired_at(gc_watermark.0)) by {
                assert(map.contains_key(x) <==> old(self).states@.contains_key(x) && !((exists|
                    j: int,
                |
                    0 <= j < i && all[j] == x)
                    && old(self).states@[x].expired_at(gc_watermark.0)));
                if x == id {
                    assert(all[i as int] == id);
                } else if exists|j: int| 0 <= j < i + 1 && all[j] == x {
                    let j = choose|j: int| 0 <= j < i + 1 && all[j] == x;
                    assert(j < i);
                }
            }
            i = i + 1;
        }
        self.ids = kept;
        assert forall|x: u64| self.states@.contains_key(x) <==> #[trigger] self.ids@.contains(x) by {
            if old(self).states@.contains_key(x) {
                assert(all.contains(x));
                let j = choose|j: int| 0 <= j < all.len() && all[j] == x;
            }
            if self.ids@.contains(x) {
                let j = choose|j: int| 0 <= j < i && all[j] == x;
                assert(all.contains(x));
            }
        }
        assert(self@ =~= live_states(old(self)@, gc_watermark.0)) by {
            assert forall|x: u64| #[trigger] self@.contains_key(x) == live_states(
                old(self)@,
                gc_watermark.0,
            ).contains_key(x) by {
                if old(self).states@.contains_key(x) {
                    assert(all.contains(x));
                    let j = choose|j: int| 0 <= j < all.len() && all[j] == x;
                }
            }
        }
    }

    /// Whether `id`'s read locks can be discarded.
    pub fn is_expired(&self, id: u64, gc_watermark: Timestamp) -> (r: bool)
        ensures
            r == expired(self@, id, gc_watermark.0),
    {
        match self.get(id) {
            Some(s) => s.is_expired(gc_watermark),
            None => true,
        }
    }
}

/// Picks the transactions whose read locks still matter.
pub open spec fn matters(states: Map<u64, TxnState>, gc_watermark: u64) -> spec_fn(u64) -> bool {
    |r: u64| !expired(states, r, gc_watermark)
}

/// Picks everyone but `writer`.
pub open spec fn other_than(writer: u64) -> spec_fn(u64) -> bool {
    |r: u64| r != writer
}

/// Filtering a list without duplicates filters the set it stands for.
proof fn lemma_filtered(ids: Seq<u64>, keep: spec_fn(u64) -> bool)
    ensures
        ids.len() == 0 ==> ids.filter(keep).len() == 0,
        ids.no_duplicates() ==> ids.filter(keep).no_duplicates(),
        ids.filter(keep).to_set() == ids.to_set().filter(keep),
    decreases ids.len(),
{
    reveal(Seq::filter);
    let kept = ids.filter(keep);
    if ids.len() > 0 {
        let rest = ids.drop_last();
        let last = ids.last();
        lemma_filtered(rest, keep);
        assert(ids =~= rest.push(last));
        rest.lemma_filter_push(last, keep);
        let before = rest.filter(keep);
        assert forall|x: u64| kept.to_set().contains(x) <==> ids.to_set().filter(keep).contains(
            x,
        ) by {
            assert(before.to_set().contains(x) <==> rest.to_set().contains(x) && keep(x));
            if kept.contains(x) {
                let j = choose|j: int| 0 <= j < kept.len() && kept[j] == x;
                if j < before.len() {
                    assert(before[j] == x);
                } else {
                    assert(ids[ids.len() - 1] == x);
                }
                if rest.contains(x) {
                    let i = choose|i: int| 0 <= i < rest.len() && rest[i] == x;
                    assert(ids[i] == x);
                }
            }
            if ids.contains(x) && keep(x) {
                let i = choose|i: int| 0 <= i < ids.len() && ids[i] == x;
                if i < rest.len() {
                    assert(rest[i] == x);
                    assert(before.contains(x));
                    let j = choose|j: int| 0 <= j < before.len() && before[j] == x;
                    assert(kept[j] == x);
                } else {
                    assert(kept[before.len() as int] == x);
                }
            }
        }
        assert(kept.to_set() =~= ids.to_set().filter(keep));
        if ids.no_duplicates() {
            assert(!before.contains(last)) by {
                if before.contains(last) {
                    assert(before.to_set().contains(last));
                    assert(rest.contains(last));
                }
            }
            assert(rest.no_duplicates());
        }
    } else {
        assert(kept.to_set() =~= ids.to_set().filter(keep));
    }
}

/// The set of transactions holding a read lock on one slot.
///
/// A plain list: read sets per slot are almost always tiny.
#[derive(Debug)]
pub struct Readers {
    pub ids: Vec<u64>,
}

impl View for Readers {
    type V = Set<u64>;

    open spec fn view(&self) -> Set<u64> {
        self.ids@.to_set()
    }
}

impl Readers {
    /// Nobody is listed twice.
    pub open spec fn wf(&self) -> bool {
        self.ids@.no_duplicates()
    }

    pub fn new() -> (r: Self)
        ensures
            r.wf(),
            r@ == Set::<u64>::empty(),
    {
        let r = Readers { ids: Vec::new() };
        assert(r@ =~= Set::<u64>::empty());
        r
    }

    /// Whether `id` is listed.
    fn position(&self, id: u64) -> (r: bool)
        ensures
            r == self@.contains(id),
    {
        let mut i: usize = 0;
        while i < self.ids.len()
            invariant
                i <= self.ids@.len(),
                forall|j: int| 0 <= j < i ==> self.ids@[j] != id,
            decreases self.ids@.len() - i,
        {
            if self.ids[i] == id {
                assert(self.ids@[i as int] == id);
                return true;
            }
            i = i + 1;
        }
        false
    }

    /// Register `id` as having read this slot, if it is not already there.
    pub fn register(&mut self, id: TxnId)
        requires
            old(self).wf(),
        ensures
            final(self).wf(),
            final(self)@ == old(self)@.insert(id.0),
            final(self).ids@ == (if old(self)@.contains(id.0) {
                old(self).ids@
            } else {
                old(self).ids@.push(id.0)
            }),
    {
        if !self.position(id.0) {
            self.ids.push(id.0);
            assert(self.ids@.last() == id.0);
            assert forall|x: u64| old(self)@.contains(x) implies self@.contains(x) by {
                let j = choose|j: int| 0 <= j < old(self).ids@.len() && old(self).ids@[j] == x;
                assert(self.ids@[j] == x);
            }
        }
        assert(self@ =~= old(self)@.insert(id.0));
    }

    /// Drop the entries whose locks no longer matter. The others stay in order.
    pub fn purge(&mut self, states: &TxnTable, gc_watermark: Timestamp)
        requires
            old(self).wf(),
        ensures
            final(self).wf(),
            final(self).ids@ == old(self).ids@.filter(matters(states@, gc_watermark.0)),
            final(self)@ == old(self)@.filter(|r: u64| !expired(states@, r, gc_watermark.0)),
    {
        let ghost keep = matters(states@, gc_watermark.0);
        let mut kept: Vec<u64> = Vec::new();
        let mut i: usize = 0;
        proof {
            lemma_filtered(self.ids@.take(0), keep);
        }
        while i < self.ids.len()
            invariant
                i <= self.ids@.len(),
                self.ids@ == old(self).ids@,
                keep == matters(states@, gc_watermark.0),
                kept@ == self.ids@.take(i as int).filter(keep),
            decreases self.ids@.len() - i,
        {
            let id: u64 = self.ids[i];
            proof {
                assert(self.ids@.take(i + 1) =~= self.ids@.take(i as int).push(id));
                self.ids@.take(i as int).lemma_filter_push(id, keep);
            }
            if !states.is_expired(id, gc_watermark) {
                kept.push(id);
            }
            i = i + 1;
        }
        self.ids = kept;
        proof {
            assert(old(self).ids@.take(i as int) =~= old(self).ids@);
            lemma_filtered(old(self).ids@, keep);
            assert(self@ =~= old(self)@.filter(|r: u64| !expired(states@, r, gc_watermark.0)));
        }
    }

    /// Drop expired entries, then report whether anyone other than `writer`
    /// still holds a lock here.
    pub fn has_other_reader(
        &mut self,
        writer: TxnId,
        states: &TxnTable,
        gc_watermark: Timestamp,
    ) -> (r: bool)
        requires
            old(self).wf(),
        ensures
            final(self).wf(),
            final(self).ids@ == old(self).ids@.filter(matters(states@, gc_watermark.0)),
            final(self)@ == old(self)@.filter(|r: u64| !expired(states@, r, gc_watermark.0)),
            r == exists|x: u64| final(self)@.contains(x) && x != writer.0,
    {
        let others = self.others(writer, states, gc_watermark);
        if others.len() > 0 {
            assert(others@.to_set().contains(others@[0]));
            assert(self@.contains(others@[0]) && others@[0] != writer.0);
            true
        } else {
            assert forall|x: u64| self@.contains(x) implies x == writer.0 by {
                assert(!others@.to_set().contains(x));
            }
            false
        }
    }

    /// Every live reader other than `writer`, in the order they registered.
    pub fn others(&mut self, writer: TxnId, states: &TxnTable, gc_watermark: Timestamp) -> (r: Vec<
        u64,
    >)
        requires
            old(self).wf(),
        ensures
            final(self).wf(),
            final(self).ids@ == old(self).ids@.filter(matters(states@, gc_watermark.0)),
            r@ == final(self).ids@.filter(other_than(writer.0)),
            final(self)@ == old(self)@.filter(|r: u64| !expired(states@, r, gc_watermark.0)),
            r@.to_set() == final(self)@.remove(writer.0),
            r@.no_duplicates(),
    {
        self.purge(states, gc_watermark);
        let ghost keep = other_than(writer.0);
        let mut out: Vec<u64> = Vec::new();
        let mut i: usize = 0;
        proof {
            lemma_filtered(self.ids@.take(0), keep);
        }
        while i < self.ids.len()
            invariant
                i <= self.ids@.len(),
                keep == other_than(writer.0),
                out@ == self.ids@.take(i as int).filter(keep),
            decreases self.ids@.len() - i,
        {
            let id: u64 = self.ids[i];
            proof {
                assert(self.ids@.take(i + 1) =~= self.ids@.take(i as int).push(id));
                self.ids@.take(i as int).lemma_filter_push(id, keep);
            }
            if id != writer.0 {
                out.push(id);
            }
            i = i + 1;
        }
        proof {
            assert(self.ids@.take(i as int) =~= self.ids@);
            lemma_filtered(self.ids@, keep);
            assert(out@.to_set() =~= self@.remove(writer.0));
        }
        out
    }

    /// How many transactions hold a lock here.
    pub fn len(&self) -> (n: usize)
        requires
            self.wf(),
        ensures
            n == self@.len(),
    {
        proof {
            self.ids@.unique_seq_to_set();
        }
        self.ids.len()
    }
}

/// Whether a transaction of which `states` tells can still conflict with one that
/// began at `since` or later: it did not abort, and is running or committed after that.
pub open spec fn may_conflict(states: Map<u64, TxnState>, id: u64, since: u64) -> bool {
    states.contains_key(id) && !states[id].aborted && (states[id].committed_at == 0
        || states[id].committed_at > since)
}

/// A transaction's read locks matter, and what is known of it is kept, for as long as
/// it can conflict with one that began at the watermark.
pub proof fn law_read_locks_expire(state: TxnState, since: Timestamp, table: TxnTable, id: u64)
    ensures
        forall|r: bool| #[trigger]
            call_ensures(TxnState::is_expired, (&state, since), r) ==> (r <==> state.aborted || (
            state.committed_at != 0 && state.committed_at <= since.0)),
        forall|r: bool| #[trigger]
            call_ensures(TxnTable::is_expired, (&table, id, since), r) ==> (r
                <==> !may_conflict(table@, id, since.0)),
        forall|t: &mut TxnTable| #[trigger]
            call_ensures(TxnTable::purge, (t, since), ()) && t.wf() ==> forall|x: u64|
                #![trigger final(t)@.contains_key(x)]
                if may_conflict(t@, x, since.0) {
                    final(t)@.contains_key(x) && final(t)@[x] == t@[x]
                } else {
                    !final(t)@.contains_key(x)
                },
{
}

/// A transaction is a pivot, and may not commit, once it has conflicts in both
/// directions.
pub proof fn law_pivots_have_conflicts_in_both_directions(state: TxnState)
    ensures
        forall|r: bool| #[trigger]
            call_ensures(TxnState::is_pivot, (&state,), r) ==> (r <==> state.in_conflict
                && state.out_conflict),
{
}

/// Looking for the other readers of a slot finds every one, once, whose read lock still
/// matters, and forgets those whose lock does not.
pub proof fn law_readers_are_found_while_they_matter(
    writer: TxnId,
    states: TxnTable,
    since: Timestamp,
)
    ensures
        forall|readers: &mut Readers, r: Vec<u64>| #[trigger]
            call_ensures(Readers::others, (readers, writer, &states, since), r) && readers.wf()
                ==> {
                &&& r@.no_duplicates()
                &&& forall|x: u64|
                    #![trigger r@.contains(x)]
                    r@.contains(x) <==> readers.ids@.contains(x) && x != writer.0 && may_conflict(
                        states@,
                        x,
                        since.0,
                    )
                &&& forall|x: u64|
                    #![trigger final(readers).ids@.contains(x)]
                    final(readers).ids@.contains(x) <==> readers.ids@.contains(x) && may_conflict(
                        states@,
                        x,
                        since.0,
                    )
            },
        forall|readers: &mut Readers, r: bool| #[trigger]
            call_ensures(Readers::has_other_reader, (readers, writer, &states, since), r)
                && readers.wf() ==> (r <==> exists|x: u64|
                #![trigger readers.ids@.contains(x)]
                readers.ids@.contains(x) && x != writer.0 && may_conflict(states@, x, since.0)),
        forall|readers: &mut Readers| #[trigger]
            call_ensures(Readers::purge, (readers, &states, since), ()) && readers.wf()
                ==> forall|x: u64|
                #![trigger final(readers).ids@.contains(x)]
                final(readers).ids@.contains(x) <==> readers.ids@.contains(x) && may_conflict(
                    states@,
                    x,
                    since.0,
                ),
{
    assert forall|readers: &mut Readers, r: Vec<u64>| #[trigger]
        call_ensures(Readers::others, (readers, writer, &states, since), r)
            && readers.wf() implies {
        &&& r@.no_duplicates()
        &&& forall|x: u64|
            #![trigger r@.contains(x)]
            r@.contains(x) <==> readers.ids@.contains(x) && x != writer.0 && may_conflict(
                states@,
                x,
                since.0,
            )
        &&& forall|x: u64|
            #![trigger final(readers).ids@.contains(x)]
            final(readers).ids@.contains(x) <==> readers.ids@.contains(x) && may_conflict(
                states@,
                x,
                since.0,
            )
    } by {
        assert forall|x: u64|
            #![trigger r@.contains(x)]
            r@.contains(x) <==> readers.ids@.contains(x) && x != writer.0 && may_conflict(
                states@,
                x,
                since.0,
            ) by {
            assert(r@.to_set().contains(x) <==> r@.contains(x));
            assert(final(readers)@.contains(x) <==> readers@.contains(x) && !expired(
                states@,
                x,
                since.0,
            ));
        }
        assert forall|x: u64|
            #![trigger final(readers).ids@.contains(x)]
            final(readers).ids@.contains(x) <==> readers.ids@.contains(x) && may_conflict(
                states@,
                x,
                since.0,
            ) by {
            assert(final(readers)@.contains(x) <==> readers@.contains(x) && !expired(
                states@,
                x,
                since.0,
            ));
        }
    }
    assert forall|readers: &mut Readers, r: bool| #[trigger]
        call_ensures(Readers::has_other_reader, (readers, writer, &states, since), r)
            && readers.wf() implies (r <==> exists|x: u64|
        #![trigger readers.ids@.contains(x)]
        readers.ids@.contains(x) && x != writer.0 && may_conflict(states@, x, since.0)) by {
        assert forall|x: u64| #[trigger]
            final(readers)@.contains(x) <==> readers.ids@.contains(x) && may_conflict(
                states@,
                x,
                since.0,
            ) by {
            assert(final(readers)@.contains(x) <==> readers@.contains(x) && !expired(
                states@,
                x,
                since.0,
            ));
        }
        if exists|x: u64|
            #![trigger readers.ids@.contains(x)]
            readers.ids@.contains(x) && x != writer.0 && may_conflict(states@, x, since.0) {
            let x = choose|x: u64|
                #![trigger readers.ids@.contains(x)]
                readers.ids@.contains(x) && x != writer.0 && may_conflict(states@, x, since.0);
            assert(final(readers)@.contains(x));
        }
    }
    assert forall|readers: &mut Readers| #[trigger]
        call_ensures(Readers::purge, (readers, &states, since), ()) && readers.wf() implies forall|
        x: u64,
    |
        #![trigger final(readers).ids@.contains(x)]
        final(readers).ids@.contains(x) <==> readers.ids@.contains(x) && may_conflict(
            states@,
            x,
            since.0,
        ) by {
        assert forall|x: u64|
            #![trigger final(readers).ids@.contains(x)]
            final(readers).ids@.contains(x) <==> readers.ids@.contains(x) && may_conflict(
                states@,
                x,
                since.0,
            ) by {
            assert(final(readers)@.contains(x) <==> readers@.contains(x) && !expired(
                states@,
                x,
                since.0,
            ));
        }
    }
}

} // verus!
