//! Committing, and giving up.

use std::sync::Arc;

use vstd::prelude::*;

use crate::database::transaction::Transaction;
use crate::database::{
    lemma_still_linked, linked, listed_once, lists_claim, lists_write, Database, Read, Scope,
    TxnLocal,
};
use crate::error::{Error, Result};
use crate::filter::Filter;
use crate::integrity::released;
use crate::isolation::IsolationLevel;
use crate::keep::{lemma_committed_inv, lemma_detected_inv, lemma_rolled_back_inv, quieter};
use crate::order::{
    lemma_lex_asymmetric, lemma_lex_irreflexive, lemma_lex_total, lemma_lex_transitive, lex_lt,
    relate, Relation,
};
use crate::ordered::Ordered;
use crate::schema::IndexKey;
use crate::slot::{SlotView, Version};
use crate::ssi::{expired, with_incoming, with_outgoing, TxnState, TxnTable};
use crate::state::{
    differ, gc_watermark, lemma_gc_watermark, missed, order_key, overwrites, place_of, seen, sooner,
    DbView, Place, ScopeView, GC_HINT_INTERVAL, SWEEP_INTERVAL,
};
use crate::table::{
    append_ids, began, begins_of, lemma_live_locks_twice, lemma_watched_live, lists, live_locks,
    scanned, touched, watched, writer_at, Table, TableView,
};
use crate::time::{Timestamp, TxnId, FOREVER, NOBODY};
use crate::versioned::Versioned;

verus! {

broadcast use vstd::std_specs::hash::group_hash_axioms;

/// The views of some tables.
spec fn views<T: Versioned>(tables: Seq<Table<T>>) -> Seq<TableView<T>> {
    tables.map_values(|t: Table<T>| t@)
}

/// A record that a read finds changed.
struct Changed {
    /// The read no longer finds it.
    gone: bool,
    /// The key by which an index orders it, for a read of an index.
    by: IndexKey,
    key: IndexKey,
    /// Who wrote what stands there now. A writer below the level that validates
    /// reads keeps no conflict state, so it is not named; the change itself still
    /// counts.
    writer: Option<TxnId>,
}

impl Changed {
    spec fn place(self) -> Place {
        Place { gone: self.gone, by: self.by@, key: self.key@ }
    }

    /// Whether this comes before `other`.
    fn is_sooner(&self, other: &Changed) -> (r: bool)
        ensures
            r == sooner(self.place(), other.place()),
    {
        if self.gone != other.gone {
            return other.gone;
        }
        proof {
            lemma_lex_irreflexive(self.by@);
            if lex_lt(other.by@, self.by@) {
                lemma_lex_asymmetric(other.by@, self.by@);
            }
            if lex_lt(other.key@, self.key@) {
                lemma_lex_asymmetric(other.key@, self.key@);
            }
            lemma_lex_irreflexive(self.key@);
        }
        match relate(&self.by.0, &other.by.0) {
            Relation::Less => true,
            Relation::Greater => false,
            Relation::Equal => match relate(&self.key.0, &other.key.0) {
                Relation::Less => true,
                _ => false,
            },
        }
    }
}

/// Of two records one comes first, and not both.
proof fn lemma_sooner(a: Place, b: Place)
    ensures
        !(sooner(a, b) && sooner(b, a)),
        a.key != b.key ==> sooner(a, b) || sooner(b, a),
        !sooner(a, a),
{
    lemma_lex_irreflexive(a.key);
    lemma_lex_total(a.by, b.by);
    lemma_lex_total(a.key, b.key);
    if lex_lt(a.by, b.by) {
        lemma_lex_asymmetric(a.by, b.by);
    }
    if lex_lt(a.key, b.key) {
        lemma_lex_asymmetric(a.key, b.key);
    }
}

proof fn lemma_sooner_transitive(a: Place, b: Place, c: Place)
    requires
        sooner(a, b),
        sooner(b, c),
    ensures
        sooner(a, c),
{
    if a.gone == b.gone && b.gone == c.gone {
        if a.by != b.by && b.by != c.by {
            lemma_lex_transitive(a.by, b.by, c.by);
            lemma_lex_irreflexive(a.by);
        }
        if a.by == b.by && b.by == c.by {
            lemma_lex_transitive(a.key, b.key, c.key);
        }
    }
}

spec fn in_order(changes: Seq<Changed>) -> bool {
    forall|a: int, b: int|
        0 <= a < b < changes.len() ==> sooner(
            (#[trigger] changes[a]).place(),
            (#[trigger] changes[b]).place(),
        )
}

/// Whether the record under `k` is among the first `n` of these.
spec fn tells_of(changes: Seq<Changed>, n: int, k: Seq<u8>) -> bool {
    exists|a: int| 0 <= a < n && (#[trigger] changes[a]).key@ == k
}

/// Whether `c` says where its record stands, and who wrote it.
spec fn right<T: Versioned>(
    c: Changed,
    slots: Map<Seq<u8>, SlotView<T>>,
    scope: ScopeView<T>,
    since: u64,
    now: u64,
    current: Map<Seq<u8>, u64>,
) -> bool {
    &&& c.place() == place_of(slots, scope, since, now, current, c.key@)
    &&& c.writer == writer_at(slots[c.key@], now)
}

/// These are the records in which `current` differs from `observed`, in order.
spec fn changes_of<T: Versioned>(
    changes: Seq<Changed>,
    slots: Map<Seq<u8>, SlotView<T>>,
    scope: ScopeView<T>,
    since: u64,
    now: u64,
    current: Map<Seq<u8>, u64>,
    observed: Map<Seq<u8>, u64>,
) -> bool {
    &&& in_order(changes)
    &&& forall|a: int|
        0 <= a < changes.len() ==> right(#[trigger] changes[a], slots, scope, since, now, current)
    &&& forall|k: Seq<u8>| #[trigger]
        differ(current, observed, k) <==> tells_of(changes, changes.len() as int, k)
}

/// Add a record where it belongs.
fn add_in_order(changes: &mut Vec<Changed>, c: Changed)
    requires
        in_order(old(changes)@),
        !tells_of(old(changes)@, old(changes)@.len() as int, c.key@),
    ensures
        in_order(final(changes)@),
        exists|i: int|
            0 <= i <= old(changes)@.len() && final(changes)@ == #[trigger] old(changes)@.insert(i, c),
{
    let ghost before = changes@;
    let mut i: usize = changes.len();
    while i > 0 && c.is_sooner(&changes[i - 1])
        invariant
            i <= changes@.len(),
            changes@ == before,
            forall|a: int|
                i <= a < before.len() ==> sooner(c.place(), (#[trigger] before[a]).place()),
        decreases i,
    {
        i = i - 1;
    }
    proof {
        if i > 0 {
            let last = before[i - 1];
            assert(last.key@ != c.key@);
            lemma_sooner(c.place(), last.place());
            assert forall|a: int| 0 <= a < i implies sooner(
                (#[trigger] before[a]).place(),
                c.place(),
            ) by {
                if a < i - 1 {
                    lemma_sooner_transitive(before[a].place(), last.place(), c.place());
                }
            }
        }
    }
    changes.insert(i, c);
    proof {
        let after = before.insert(i as int, c);
        assert forall|a: int, b: int| 0 <= a < b < after.len() implies sooner(
            (#[trigger] after[a]).place(),
            (#[trigger] after[b]).place(),
        ) by {
            if a < i {
                let x = before[a];
            } else if a > i {
                let x = before[a - 1];
            }
            if b < i {
                let y = before[b];
            } else if b > i {
                let y = before[b - 1];
            }
        }
    }
}

/// Adding a record to a list that says right of the others.
proof fn lemma_added<T: Versioned>(
    before: Seq<Changed>,
    after: Seq<Changed>,
    c: Changed,
    slots: Map<Seq<u8>, SlotView<T>>,
    scope: ScopeView<T>,
    since: u64,
    now: u64,
    current: Map<Seq<u8>, u64>,
)
    requires
        forall|a: int|
            0 <= a < before.len() ==> right(#[trigger] before[a], slots, scope, since, now, current),
        right(c, slots, scope, since, now, current),
        exists|i: int| 0 <= i <= before.len() && after == #[trigger] before.insert(i, c),
    ensures
        forall|a: int|
            0 <= a < after.len() ==> right(#[trigger] after[a], slots, scope, since, now, current),
        forall|k: Seq<u8>| #[trigger]
            tells_of(after, after.len() as int, k) <==> tells_of(before, before.len() as int, k)
                || k == c.key@,
{
    let i = choose|i: int| 0 <= i <= before.len() && after == #[trigger] before.insert(i, c);
    assert forall|a: int| 0 <= a < after.len() implies right(
        #[trigger] after[a],
        slots,
        scope,
        since,
        now,
        current,
    ) by {
        if a < i {
            assert(after[a] == before[a]);
        } else if a > i {
            assert(after[a] == before[a - 1]);
        }
    }
    assert forall|k: Seq<u8>| #[trigger]
        tells_of(after, after.len() as int, k) <==> tells_of(before, before.len() as int, k) || k
            == c.key@ by {
        if tells_of(after, after.len() as int, k) {
            let a = choose|a: int| 0 <= a < after.len() && (#[trigger] after[a]).key@ == k;
            if a < i {
                assert(before[a].key@ == k);
            } else if a > i {
                assert(before[a - 1].key@ == k);
            }
        }
        if tells_of(before, before.len() as int, k) {
            let a = choose|a: int| 0 <= a < before.len() && (#[trigger] before[a]).key@ == k;
            if a < i {
                assert(after[a].key@ == k);
            } else {
                assert(after[a + 1].key@ == k);
            }
        }
        if k == c.key@ {
            assert(after[i].key@ == k);
        }
    }
}

/// The key by which a read orders the record under `key` at `at`.
fn order_key_of<T: Versioned>(
    table: &Table<T>,
    scope: &Scope<T>,
    key: &IndexKey,
    at: Timestamp,
) -> (r: IndexKey)
    requires
        table.wf(),
    ensures
        r@ == order_key(table@.slots[key@], scope@, at.0),
{
    match scope {
        Scope::Row(_) => IndexKey(Vec::new()),
        Scope::Rows(filter) => match &**filter {
            Filter::Range { position, .. } => match table.read(key, at, TxnId::none()) {
                Some(version) => match &version.value {
                    Some(record) => record.index_key(*position),
                    None => IndexKey(Vec::new()),
                },
                None => IndexKey(Vec::new()),
            },
            _ => IndexKey(Vec::new()),
        },
    }
}

/// Who wrote what stands under `key` at `now`, if that can be told.
fn writer_of<T: Versioned>(table: &Table<T>, key: &IndexKey, now: Timestamp) -> (r: Option<TxnId>)
    requires
        table.wf(),
    ensures
        r == writer_at(table@.slots[key@], now.0),
{
    match table.read(key, now, TxnId::none()) {
        Some(version) => version.writer,
        None => None,
    }
}

/// Compare what a read observed with what it finds now, and name who changed
/// it.
///
/// A result can change in two directions. A row entered it, or was replaced in
/// it: the version now there tells who wrote it. Or a row left it: the version
/// responsible is not in the result, so it is fetched from the slot.
fn writers_of_change<T: Versioned>(
    table: &Table<T>,
    scope: &Scope<T>,
    observed: &Ordered<u64>,
    current: &Ordered<u64>,
    since: Timestamp,
    now: Timestamp,
) -> (r: Vec<Changed>)
    requires
        table.wf(),
        observed.wf(),
        current.wf(),
    ensures
        changes_of(r@, table@.slots, scope@, since.0, now.0, current@, observed@),
{
    let mut changes: Vec<Changed> = Vec::new();
    let mut i: usize = 0;
    while i < current.items.len()
        invariant
            i <= current.items@.len(),
            table.wf(),
            observed.wf(),
            current.wf(),
            in_order(changes@),
            forall|a: int|
                0 <= a < changes@.len() ==> right(
                    #[trigger] changes@[a],
                    table@.slots,
                    scope@,
                    since.0,
                    now.0,
                    current@,
                ),
            forall|k: Seq<u8>| #[trigger]
                tells_of(changes@, changes@.len() as int, k) <==> differ(current@, observed@, k)
                    && current@.contains_key(k) && current.position(k) < i,
        decreases current.items@.len() - i,
    {
        let key = &current.items[i].0;
        let begin: u64 = current.items[i].1;
        proof {
            current.lemma_position(i as int);
        }
        let same: bool = match observed.get(key) {
            Some(b) => *b == begin,
            None => false,
        };
        assert(same == !differ(current@, observed@, key@));
        let ghost before = changes@;
        if !same {
            let c = Changed {
                gone: false,
                by: order_key_of(table, scope, key, now),
                key: key.duplicate(),
                writer: writer_of(table, key, now),
            };
            assert(!tells_of(before, before.len() as int, key@));
            let ghost added = c;
            add_in_order(&mut changes, c);
            proof {
                lemma_added(
                    before,
                    changes@,
                    added,
                    table@.slots,
                    scope@,
                    since.0,
                    now.0,
                    current@,
                );
            }
        }
        proof {
            assert forall|k: Seq<u8>| #[trigger]
                tells_of(changes@, changes@.len() as int, k) <==> differ(current@, observed@, k)
                    && current@.contains_key(k) && current.position(k) < i + 1 by {
                if current@.contains_key(k) && current.position(k) == i {
                    assert(current.holds(k));
                    assert(k == key@);
                }
                assert(tells_of(before, before.len() as int, k) <==> differ(
                    current@,
                    observed@,
                    k,
                ) && current@.contains_key(k) && current.position(k) < i);
            }
        }
        i = i + 1;
    }
    proof {
        assert forall|k: Seq<u8>| #[trigger]
            tells_of(changes@, changes@.len() as int, k) <==> differ(current@, observed@, k)
                && current@.contains_key(k) by {
            if current@.contains_key(k) {
                assert(current.holds(k));
            }
        }
    }
    let mut i: usize = 0;
    while i < observed.items.len()
        invariant
            i <= observed.items@.len(),
            table.wf(),
            observed.wf(),
            current.wf(),
            in_order(changes@),
            forall|a: int|
                0 <= a < changes@.len() ==> right(
                    #[trigger] changes@[a],
                    table@.slots,
                    scope@,
                    since.0,
                    now.0,
                    current@,
                ),
            forall|k: Seq<u8>| #[trigger]
                tells_of(changes@, changes@.len() as int, k) <==> differ(current@, observed@, k)
                    && (current@.contains_key(k) || observed.position(k) < i),
        decreases observed.items@.len() - i,
    {
        let key = &observed.items[i].0;
        proof {
            observed.lemma_position(i as int);
        }
        let ghost before = changes@;
        if current.get(key).is_none() {
            let c = Changed {
                gone: true,
                by: order_key_of(table, scope, key, since),
                key: key.duplicate(),
                writer: writer_of(table, key, now),
            };
            assert(!tells_of(before, before.len() as int, key@));
            let ghost added = c;
            add_in_order(&mut changes, c);
            proof {
                lemma_added(
                    before,
                    changes@,
                    added,
                    table@.slots,
                    scope@,
                    since.0,
                    now.0,
                    current@,
                );
            }
        }
        proof {
            assert forall|k: Seq<u8>| #[trigger]
                tells_of(changes@, changes@.len() as int, k) <==> differ(current@, observed@, k)
                    && (current@.contains_key(k) || observed.position(k) < i + 1) by {
                if differ(current@, observed@, k) && !current@.contains_key(k) {
                    assert(observed.holds(k));
                    if observed.position(k) == i {
                        assert(k == key@);
                    }
                }
                assert(tells_of(before, before.len() as int, k) <==> differ(
                    current@,
                    observed@,
                    k,
                ) && (current@.contains_key(k) || observed.position(k) < i));
            }
        }
        i = i + 1;
    }
    proof {
        assert forall|k: Seq<u8>| #[trigger] differ(current@, observed@, k) <==> tells_of(
            changes@,
            changes@.len() as int,
            k,
        ) by {
            if differ(current@, observed@, k) && !current@.contains_key(k) {
                assert(observed.holds(k));
            }
            let x = tells_of(changes@, changes@.len() as int, k);
        }
    }
    changes
}

/// What a scan finds at `now`, as nobody sees it.
spec fn scanned_by<T: Versioned>(
    tv: TableView<T>,
    now: u64,
    filter: Arc<Filter<T::Predicate>>,
) -> Map<Seq<u8>, Version<T>> {
    scanned(tv.slots, now, NOBODY, *filter)
}

/// The entries of an ordered map are listed in it.
proof fn lemma_lists<V>(m: Ordered<V>)
    requires
        m.wf(),
    ensures
        lists(m.items@, m@),
{
    assert forall|i: int| 0 <= i < m.items@.len() implies m@.contains_key(
        (#[trigger] m.items@[i]).0@,
    ) && m@[m.items@[i].0@] == m.items@[i].1 by {
        m.lemma_position(i);
    }
    assert forall|k: Seq<u8>| #[trigger] m@.contains_key(k) implies exists|i: int|
        0 <= i < m.items@.len() && (#[trigger] m.items@[i]).0@ == k by {
        assert(m.holds(k));
    }
}

/// Run a recorded read again.
fn revalidate<T: Versioned>(
    table: &Table<T>,
    read: &Read<T>,
    since: Timestamp,
    now: Timestamp,
) -> (r: Vec<Changed>)
    requires
        table.wf(),
        read.observed.wf(),
        match read.scope@ {
            ScopeView::Row(k) => true,
            ScopeView::Rows(filter) => match *filter {
                Filter::Range { position, .. } => position < table@.indexes.len(),
                _ => true,
            },
        },
    ensures
        changes_of(
            r@,
            table@.slots,
            read.scope@,
            since.0,
            now.0,
            seen(table@.slots, read.scope@, now.0),
            read.observed@,
        ),
{
    // As nobody, so that the transaction's own writes stay invisible. As itself
    // it would compare what it read with what it then wrote, and every
    // read-modify-write would conflict with itself.
    let current: Ordered<u64> = match &read.scope {
        Scope::Row(key) => {
            let mut current: Ordered<u64> = Ordered::new();
            match table.read(key, now, TxnId::none()) {
                Some(version) => {
                    current.insert(key.duplicate(), version.begin);
                },
                None => {},
            }
            assert(current@ =~= seen(table@.slots, read.scope@, now.0));
            current
        },
        Scope::Rows(filter) => {
            let ghost rows = scanned_by(table@, now.0, *filter);
            match &**filter {
                Filter::Range { position, lo, hi } => begins_of(
                    &table.matching_in_index(*position, lo, hi, now, TxnId::none()),
                    Ghost(rows),
                ),
                _ => {
                    let matched = table.matching(now, TxnId::none(), filter);
                    proof {
                        lemma_lists(matched);
                    }
                    begins_of(&matched.items, Ghost(rows))
                },
            }
        },
    };
    writers_of_change(table, &read.scope, &read.observed, &current, since, now)
}

/// Look for what a read made at `since` did not see, and add whoever wrote it.
///
/// What a read finds now tells who wrote last, not who wrote in between. The
/// versions do: none is pruned that a running transaction does not see.
fn overlooked<T: Versioned>(
    table: &Table<T>,
    read: &Read<T>,
    since: Timestamp,
    now: Timestamp,
    writers: &mut Vec<u64>,
)
    requires
        table.wf(),
        match read.scope@ {
            ScopeView::Row(k) => true,
            ScopeView::Rows(filter) => match *filter {
                Filter::Range { position, .. } => position < table@.indexes.len(),
                _ => true,
            },
        },
    ensures
        forall|w: u64| #[trigger]
            final(writers)@.contains(w) <==> old(writers)@.contains(w) || exists|
                k: Seq<u8>,
                ts: u64,
            | #[trigger]
                missed(table@.slots, read.scope@, k, since.0, now.0, ts) && writer_at(
                    table@.slots[k],
                    ts,
                ) == Some(TxnId(w)),
{
    let ghost before = writers@;
    match &read.scope {
        Scope::Row(key) => {
            table.changes_to(key, since, now, writers);
            proof {
                let k = key@;
                assert forall|ts: u64| #[trigger]
                    began(table@.slots[k], since.0, now.0, ts) implies missed(
                    table@.slots,
                    read.scope@,
                    k,
                    since.0,
                    now.0,
                    ts,
                ) by {}
                assert forall|j: Seq<u8>, ts: u64| #[trigger]
                    missed(table@.slots, read.scope@, j, since.0, now.0, ts) implies j == k
                    && began(table@.slots[k], since.0, now.0, ts) by {}
                assert forall|w: u64| #[trigger]
                    writers@.contains(w) <==> before.contains(w) || exists|
                        j: Seq<u8>,
                        ts: u64,
                    | #[trigger]
                        missed(table@.slots, read.scope@, j, since.0, now.0, ts) && writer_at(
                            table@.slots[j],
                            ts,
                        ) == Some(TxnId(w)) by {
                    if exists|ts: u64| #[trigger]
                        began(table@.slots[k], since.0, now.0, ts) && writer_at(
                            table@.slots[k],
                            ts,
                        ) == Some(TxnId(w)) {
                        let ts = choose|ts: u64| #[trigger]
                            began(table@.slots[k], since.0, now.0, ts) && writer_at(
                                table@.slots[k],
                                ts,
                            ) == Some(TxnId(w));
                        assert(missed(table@.slots, read.scope@, k, since.0, now.0, ts));
                    }
                }
            }
        },
        Scope::Rows(filter) => {
            table.changes_matching(filter, since, now, writers);
            proof {
                assert forall|k: Seq<u8>, ts: u64| #[trigger]
                    touched(table@.slots[k], since.0, now.0, **filter, ts) == missed(
                        table@.slots,
                        read.scope@,
                        k,
                        since.0,
                        now.0,
                        ts,
                    ) by {}
                assert forall|k: Seq<u8>, ts: u64| #[trigger]
                    missed(table@.slots, read.scope@, k, since.0, now.0, ts) == touched(
                        table@.slots[k],
                        since.0,
                        now.0,
                        **filter,
                        ts,
                    ) by {}
                assert forall|w: u64| #[trigger]
                    writers@.contains(w) <==> before.contains(w) || exists|
                        j: Seq<u8>,
                        ts: u64,
                    | #[trigger]
                        missed(table@.slots, read.scope@, j, since.0, now.0, ts) && writer_at(
                            table@.slots[j],
                            ts,
                        ) == Some(TxnId(w)) by {
                    if exists|k: Seq<u8>, ts: u64| #[trigger]
                        touched(table@.slots[k], since.0, now.0, **filter, ts) && writer_at(
                            table@.slots[k],
                            ts,
                        ) == Some(TxnId(w)) {
                        let (k, ts) = choose|k: Seq<u8>, ts: u64| #[trigger]
                            touched(table@.slots[k], since.0, now.0, **filter, ts) && writer_at(
                                table@.slots[k],
                                ts,
                            ) == Some(TxnId(w));
                        assert(missed(table@.slots, read.scope@, k, since.0, now.0, ts));
                    }
                }
            }
        },
    }
}

/// Whether every state is kept under its transaction's id.
spec fn filed(states: Map<u64, TxnState>) -> bool {
    forall|id: u64| #[trigger] states.contains_key(id) ==> states[id].id == TxnId(id)
}

/// Record an incoming conflict on each of these transactions.
fn mark_incoming(states: &mut TxnTable, ids: &Vec<u64>)
    requires
        old(states).wf(),
        filed(old(states)@),
    ensures
        final(states).wf(),
        filed(final(states)@),
        final(states)@ == with_incoming(old(states)@, ids@.to_set()),
{
    let mut i: usize = 0;
    assert(ids@.take(0).to_set() =~= Set::empty());
    assert(states@ =~= with_incoming(states@, ids@.take(0).to_set()));
    while i < ids.len()
        invariant
            i <= ids@.len(),
            states.wf(),
            filed(states@),
            states@ == with_incoming(old(states)@, ids@.take(i as int).to_set()),
        decreases ids@.len() - i,
    {
        let id: u64 = ids[i];
        let ghost before = states@;
        match states.get(id) {
            Some(state) => {
                let mut state = state;
                state.set_in_conflict();
                states.put(state);
            },
            None => {},
        }
        proof {
            lemma_take_set(ids@, i as int);
            assert(states@ =~= with_incoming(old(states)@, ids@.take(i + 1).to_set()));
        }
        i = i + 1;
    }
    assert(ids@.take(i as int) =~= ids@);
}

/// Record an incoming conflict on a transaction. Returns whether it has committed
/// and is a pivot now.
fn mark(states: &mut TxnTable, w: u64) -> (r: bool)
    requires
        old(states).wf(),
        filed(old(states)@),
    ensures
        final(states).wf(),
        filed(final(states)@),
        final(states)@ == with_incoming(old(states)@, set![w]),
        r == (old(states)@.contains_key(w) && old(states)@[w].out_conflict && old(
            states,
        )@[w].committed_at != 0),
{
    let ghost goal = with_incoming(states@, set![w]);
    match states.get(w) {
        Some(state) => {
            let mut state = state;
            state.set_in_conflict();
            states.put(state);
            assert(states@ =~= goal);
            state.is_pivot() && state.is_committed()
        },
        None => {
            assert(states@ =~= goal);
            false
        },
    }
}

/// Marking some more transactions.
proof fn lemma_marked_more(states: Map<u64, TxnState>, a: Set<u64>, b: Set<u64>)
    ensures
        with_incoming(with_incoming(states, a), b) == with_incoming(states, a.union(b)),
        with_incoming(states, Set::empty()) == states,
{
    assert(with_incoming(with_incoming(states, a), b) =~= with_incoming(states, a.union(b)));
    assert(with_incoming(states, Set::empty()) =~= states);
}

/// What came of looking for changes to what was read.
struct Outgoing {
    /// Something has changed.
    changed: bool,
    /// It was changed by a transaction that has committed and is a pivot.
    past_saving: bool,
}

/// Whether the change under `k` to read `m` has been gone through, when `n`
/// changes to read `i` have.
spec fn gone_through(i: int, changes: Seq<Changed>, n: int, m: int, k: Seq<u8>) -> bool {
    0 <= m < i || (m == i && tells_of(changes, n, k))
}

/// Those that made the changes gone through so far have been marked, and none of
/// them is beyond abort.
spec fn so_far<T: Versioned>(
    d: DbView<T>,
    id: u64,
    marked: Set<u64>,
    i: int,
    changes: Seq<Changed>,
    n: int,
) -> bool {
    let reads = d.txns[id].reads;
    &&& forall|w: u64| #[trigger]
        marked.contains(w) <==> exists|m: int, k: Seq<u8>|
            gone_through(i, changes, n, m, k) && #[trigger] d.replaced_at(reads[m], k, w)
    &&& forall|m: int, k: Seq<u8>, w: u64|
        gone_through(i, changes, n, m, k) && #[trigger] d.replaced_at(reads[m], k, w)
            ==> !d.beyond_abort(w)
}

/// Where a transaction beyond abort is come upon, those marked are those that
/// were to be.
proof fn lemma_stopped<T: Versioned>(
    d: DbView<T>,
    id: u64,
    marked: Set<u64>,
    i: int,
    changes: Seq<Changed>,
    n: int,
    last: u64,
)
    requires
        0 <= i < d.txns[id].reads.len(),
        changes_of(
            changes,
            d.tables[d.txns[id].reads[i].table].slots,
            d.txns[id].reads[i].scope,
            d.txns[id].snapshot,
            d.clock.watermark,
            d.seen_now(d.txns[id].reads[i]),
            d.txns[id].reads[i].observed,
        ),
        0 <= n < changes.len(),
        so_far(d, id, marked, i, changes, n),
        changes[n].writer == Some(TxnId(last)),
        d.beyond_abort(last),
    ensures
        d.marked(id) == marked.insert(last),
        d.past_saving(id),
{
    let reads = d.txns[id].reads;
    let read = reads[i];
    let here = changes[n].key@;
    let tv = d.tables[read.table];
    let current = d.seen_now(read);
    assert(right(changes[n], tv.slots, read.scope, d.txns[id].snapshot, d.clock.watermark, current));
    assert(tells_of(changes, changes.len() as int, here));
    assert(differ(current, read.observed, here));
    assert(d.replaced_at(read, here, last));
    assert(d.changed(read));
    assert(d.replaced_by(read, last));
    assert(d.changed_by(read, d.txns[id].snapshot, last));
    assert(d.overwriters(id).contains(last));
    assert forall|k: Seq<u8>, w: u64| #[trigger] d.replaced_at(read, k, w) implies exists|a: int|
        0 <= a < changes.len() && (#[trigger] changes[a]).key@ == k by {
        assert(tells_of(changes, changes.len() as int, k));
    }
    assert forall|w: u64| #[trigger] d.marked(id).contains(w) implies marked.insert(last).contains(
        w,
    ) by {
        let (m, k) = choose|m: int, k: Seq<u8>|
            0 <= m < reads.len() && #[trigger] d.replaced_at(reads[m], k, w) && d.comes_upon(
                id,
                m,
                k,
            );
        assert(!d.earlier(id, i, here, m, k));
        if m == i {
            let a = choose|a: int| 0 <= a < changes.len() && (#[trigger] changes[a]).key@ == k;
            let x = changes[a].place();
            assert(right(
                changes[a],
                tv.slots,
                read.scope,
                d.txns[id].snapshot,
                d.clock.watermark,
                current,
            ));
            if a > n {
                assert(sooner(changes[n].place(), changes[a].place()));
                assert(false);
            }
            if a == n {
                assert(w == last);
            } else {
                assert(tells_of(changes, n, k));
                assert(gone_through(i, changes, n, m, k));
            }
        } else {
            assert(gone_through(i, changes, n, m, k));
        }
    }
    assert forall|w: u64| #[trigger] marked.insert(last).contains(w) implies d.marked(id).contains(
        w,
    ) by {
        let (m, k) = if w == last {
            (i, here)
        } else {
            choose|m: int, k: Seq<u8>|
                gone_through(i, changes, n, m, k) && #[trigger] d.replaced_at(reads[m], k, w)
        };
        assert(0 <= m < reads.len() && d.replaced_at(reads[m], k, w));
        assert forall|m2: int, j: Seq<u8>, w2: u64|
            0 <= m2 < reads.len() && #[trigger] d.replaced_at(reads[m2], j, w2) && d.beyond_abort(
                w2,
            ) implies !d.earlier(id, m2, j, m, k) by {
            assert(!gone_through(i, changes, n, m2, j));
            if m2 == i && m == i {
                let b = choose|b: int| 0 <= b < changes.len() && (#[trigger] changes[b]).key@ == j;
                assert(b >= n) by {
                    if b < n {
                        assert(tells_of(changes, n, j));
                    }
                }
                let a = if w == last && k == here {
                    n
                } else {
                    choose|a: int| 0 <= a < n && (#[trigger] changes[a]).key@ == k
                };
                assert(changes[a].key@ == k && a <= n);
                assert(right(
                    changes[a],
                    tv.slots,
                    read.scope,
                    d.txns[id].snapshot,
                    d.clock.watermark,
                    current,
                ));
                assert(right(
                    changes[b],
                    tv.slots,
                    read.scope,
                    d.txns[id].snapshot,
                    d.clock.watermark,
                    current,
                ));
                lemma_sooner(changes[a].place(), changes[b].place());
                if a < b {
                    assert(sooner(changes[a].place(), changes[b].place()));
                }
            }
        }
        assert(d.comes_upon(id, m, k));
    }
    assert(d.marked(id) =~= marked.insert(last));
}

/// Going through one change more.
proof fn lemma_goes_on<T: Versioned>(
    d: DbView<T>,
    id: u64,
    before: Set<u64>,
    after: Set<u64>,
    i: int,
    changes: Seq<Changed>,
    n: int,
)
    requires
        0 <= i < d.txns[id].reads.len(),
        0 <= n < changes.len(),
        changes_of(
            changes,
            d.tables[d.txns[id].reads[i].table].slots,
            d.txns[id].reads[i].scope,
            d.txns[id].snapshot,
            d.clock.watermark,
            d.seen_now(d.txns[id].reads[i]),
            d.txns[id].reads[i].observed,
        ),
        so_far(d, id, before, i, changes, n),
        match changes[n].writer {
            Some(w) => after == before.insert(w.0) && !d.beyond_abort(w.0),
            None => after == before,
        },
    ensures
        so_far(d, id, after, i, changes, n + 1),
{
    let reads = d.txns[id].reads;
    let read = reads[i];
    let here = changes[n].key@;
    assert(right(
        changes[n],
        d.tables[read.table].slots,
        read.scope,
        d.txns[id].snapshot,
        d.clock.watermark,
        d.seen_now(read),
    ));
    assert(tells_of(changes, changes.len() as int, here));
    assert(differ(d.seen_now(read), read.observed, here));
    assert forall|m: int, k: Seq<u8>| #[trigger] gone_through(i, changes, n + 1, m, k) <==> gone_through(
        i,
        changes,
        n,
        m,
        k,
    ) || (m == i && k == here) by {
        if m == i && tells_of(changes, n + 1, k) {
            let a = choose|a: int| 0 <= a < n + 1 && (#[trigger] changes[a]).key@ == k;
            if a < n {
                assert(tells_of(changes, n, k));
            }
        }
        if tells_of(changes, n, k) {
            let a = choose|a: int| 0 <= a < n && (#[trigger] changes[a]).key@ == k;
            assert(0 <= a < n + 1);
        }
        if k == here {
            assert(changes[n].key@ == k);
            assert(tells_of(changes, n + 1, k));
        }
    }
    assert forall|w: u64| #[trigger] after.contains(w) <==> exists|m: int, k: Seq<u8>|
        gone_through(i, changes, n + 1, m, k) && #[trigger] d.replaced_at(reads[m], k, w) by {
        if after.contains(w) {
            if before.contains(w) {
                let (m, k) = choose|m: int, k: Seq<u8>|
                    gone_through(i, changes, n, m, k) && #[trigger] d.replaced_at(reads[m], k, w);
                assert(gone_through(i, changes, n + 1, m, k));
            } else {
                assert(d.replaced_at(reads[i], here, w));
                assert(gone_through(i, changes, n + 1, i, here));
            }
        }
        if exists|m: int, k: Seq<u8>|
            gone_through(i, changes, n + 1, m, k) && #[trigger] d.replaced_at(reads[m], k, w) {
            let (m, k) = choose|m: int, k: Seq<u8>|
                gone_through(i, changes, n + 1, m, k) && #[trigger] d.replaced_at(reads[m], k, w);
            if gone_through(i, changes, n, m, k) {
                assert(before.contains(w));
            }
        }
    }
}

/// Going on to the next read.
proof fn lemma_next_read<T: Versioned>(
    d: DbView<T>,
    id: u64,
    marked: Set<u64>,
    i: int,
    changes: Seq<Changed>,
)
    requires
        0 <= i < d.txns[id].reads.len(),
        changes_of(
            changes,
            d.tables[d.txns[id].reads[i].table].slots,
            d.txns[id].reads[i].scope,
            d.txns[id].snapshot,
            d.clock.watermark,
            d.seen_now(d.txns[id].reads[i]),
            d.txns[id].reads[i].observed,
        ),
        so_far(d, id, marked, i, changes, changes.len() as int),
    ensures
        so_far(d, id, marked, i + 1, Seq::empty(), 0),
{
    let reads = d.txns[id].reads;
    let none = Seq::<Changed>::empty();
    let n = changes.len() as int;
    assert forall|m: int, k: Seq<u8>, w: u64| #[trigger]
        d.replaced_at(reads[m], k, w) implies gone_through(i + 1, none, 0, m, k) == gone_through(
        i,
        changes,
        n,
        m,
        k,
    ) by {
        if m == i {
            assert(differ(d.seen_now(reads[i]), reads[i].observed, k));
            assert(tells_of(changes, n, k));
        }
    }
    assert forall|w: u64| #[trigger] marked.contains(w) <==> exists|m: int, k: Seq<u8>|
        gone_through(i + 1, none, 0, m, k) && #[trigger] d.replaced_at(reads[m], k, w) by {
        if marked.contains(w) {
            let (m, k) = choose|m: int, k: Seq<u8>|
                gone_through(i, changes, n, m, k) && #[trigger] d.replaced_at(reads[m], k, w);
            assert(gone_through(i + 1, none, 0, m, k));
        }
    }
}

/// Whether a read finds something else is whether there are changes.
proof fn lemma_any_changes<T: Versioned>(
    changes: Seq<Changed>,
    slots: Map<Seq<u8>, SlotView<T>>,
    scope: ScopeView<T>,
    since: u64,
    now: u64,
    current: Map<Seq<u8>, u64>,
    observed: Map<Seq<u8>, u64>,
)
    requires
        changes_of(changes, slots, scope, since, now, current, observed),
    ensures
        changes.len() > 0 <==> current != observed,
{
    if changes.len() > 0 {
        assert(changes[0].key@ == changes[0].key@);
        assert(tells_of(changes, changes.len() as int, changes[0].key@));
        assert(differ(current, observed, changes[0].key@));
    } else {
        assert forall|k: Seq<u8>| !#[trigger] differ(current, observed, k) by {}
        assert(current =~= observed) by {
            assert forall|k: Seq<u8>| #[trigger]
                current.contains_key(k) == observed.contains_key(k) by {
                assert(!differ(current, observed, k));
            }
            assert forall|k: Seq<u8>| current.contains_key(k) implies #[trigger] current[k]
                == observed[k] by {
                assert(!differ(current, observed, k));
            }
        }
    }
}

/// Did anything that was read change? Record that on those who changed it.
///
/// An overwriter may have committed, in which case marking it is how a later
/// transaction learns of it. If that turns it into a pivot, the cycle runs through
/// a transaction that can no longer abort, and nothing is left to look for.
fn outgoing<T: Versioned>(
    tables: &Vec<Table<T>>,
    reads: &Vec<Read<T>>,
    states: &mut TxnTable,
    since: Timestamp,
    now: Timestamp,
    Ghost(d): Ghost<DbView<T>>,
    Ghost(id): Ghost<u64>,
) -> (r: Outgoing)
    requires
        forall|t: int| 0 <= t < tables@.len() ==> (#[trigger] tables@[t]).wf(),
        d.tables == views(tables@),
        now.0 == d.clock.watermark,
        since.0 == d.txns[id].snapshot,
        d.live(id),
        d.txn_ok(id),
        d.txns[id].reads == reads@.map_values(|r: Read<T>| r@),
        forall|i: int| 0 <= i < reads@.len() ==> (#[trigger] reads@[i]).observed.wf(),
        old(states).wf(),
        filed(old(states)@),
        old(states)@ == d.states,
    ensures
        final(states).wf(),
        filed(final(states)@),
        r.changed == d.reads_changed(id),
        r.past_saving == d.past_saving(id),
        final(states)@ == if r.changed {
            with_incoming(d.states, d.marked(id))
        } else {
            d.states
        },
{
    let ghost all = d.txns[id].reads;
    let ghost mut marked: Set<u64> = Set::empty();
    let mut changed: bool = false;
    let mut i: usize = 0;
    proof {
        lemma_marked_more(d.states, Set::empty(), Set::empty());
        assert(so_far(d, id, marked, 0, Seq::empty(), 0));
    }
    while i < reads.len()
        invariant
            i <= reads@.len(),
            forall|t: int| 0 <= t < tables@.len() ==> (#[trigger] tables@[t]).wf(),
            d.tables == views(tables@),
            now.0 == d.clock.watermark,
            since.0 == d.txns[id].snapshot,
            d.txn_ok(id),
            all == d.txns[id].reads,
            all == reads@.map_values(|r: Read<T>| r@),
            forall|i: int| 0 <= i < reads@.len() ==> (#[trigger] reads@[i]).observed.wf(),
            states.wf(),
            filed(states@),
            states@ == with_incoming(d.states, marked),
            so_far(d, id, marked, i as int, Seq::empty(), 0),
            changed <==> exists|j: int| 0 <= j < i && d.changed(#[trigger] all[j]),
        decreases reads@.len() - i,
    {
        let read = &reads[i];
        let ghost rv = all[i as int];
        assert(rv == read@);
        assert(d.read_ok(rv));
        assert(d.tables[rv.table] == tables@[rv.table]@);
        let changes = revalidate(&tables[read.table], read, since, now);
        let ghost tv = d.tables[rv.table];
        proof {
            lemma_any_changes(
                changes@,
                tv.slots,
                rv.scope,
                since.0,
                now.0,
                d.seen_now(rv),
                rv.observed,
            );
            assert(so_far(d, id, marked, i as int, changes@, 0)) by {
                assert forall|m: int, k: Seq<u8>| #[trigger]
                    gone_through(i as int, changes@, 0, m, k) == gone_through(
                        i as int,
                        Seq::empty(),
                        0,
                        m,
                        k,
                    ) by {}
                lemma_so_far_same(d, id, marked, i as int, changes@);
            }
        }
        if changes.len() > 0 {
            changed = true;
        }
        let mut n: usize = 0;
        while n < changes.len()
            invariant
                n <= changes@.len(),
                i < reads@.len(),
                all == d.txns[id].reads,
                all.len() == reads@.len(),
                rv == all[i as int],
                tv == d.tables[rv.table],
                since.0 == d.txns[id].snapshot,
                now.0 == d.clock.watermark,
                changes_of(
                    changes@,
                    tv.slots,
                    rv.scope,
                    since.0,
                    now.0,
                    d.seen_now(rv),
                    rv.observed,
                ),
                changes@.len() > 0 <==> d.changed(rv),
                changed == (changes@.len() > 0 || exists|j: int|
                    0 <= j < i && d.changed(#[trigger] all[j])),
                states.wf(),
                filed(states@),
                states@ == with_incoming(d.states, marked),
                so_far(d, id, marked, i as int, changes@, n as int),
            decreases changes@.len() - n,
        {
            let ghost before = marked;
            match changes[n].writer {
                Some(w) => {
                    let pivot = mark(states, w.0);
                    proof {
                        lemma_marked_more(d.states, marked, set![w.0]);
                        assert(marked.union(set![w.0]) =~= marked.insert(w.0));
                        marked = marked.insert(w.0);
                    }
                    assert(pivot == d.beyond_abort(w.0));
                    if pivot {
                        proof {
                            lemma_stopped(
                                d,
                                id,
                                before,
                                i as int,
                                changes@,
                                n as int,
                                w.0,
                            );
                        }
                        return Outgoing { changed: true, past_saving: true };
                    }
                },
                None => {},
            }
            proof {
                lemma_goes_on(d, id, before, marked, i as int, changes@, n as int);
            }
            n = n + 1;
        }
        proof {
            lemma_next_read(d, id, marked, i as int, changes@);
            assert(changed <==> exists|j: int| 0 <= j < i + 1 && d.changed(#[trigger] all[j])) by {
                if d.changed(rv) {
                    assert(d.changed(all[i as int]));
                }
                if exists|j: int| 0 <= j < i && d.changed(#[trigger] all[j]) {
                    let j = choose|j: int| 0 <= j < i && d.changed(#[trigger] all[j]);
                    assert(0 <= j < i + 1);
                }
            }
        }
        i = i + 1;
    }
    if !changed {
        proof {
            assert(marked =~= Set::empty()) by {
                assert forall|w: u64| !marked.contains(w) by {
                    if marked.contains(w) {
                        let (m, k) = choose|m: int, k: Seq<u8>|
                            gone_through(i as int, Seq::empty(), 0, m, k)
                                && #[trigger] d.replaced_at(all[m], k, w);
                        assert(d.changed(all[m]));
                    }
                }
            }
        }
        return Outgoing { changed: false, past_saving: false };
    }
    let rest = all_overlooked(tables, reads, since, now, Ghost(d), Ghost(id));
    mark_incoming(states, &rest);
    proof {
        lemma_marked_more(d.states, marked, rest@.to_set());
        lemma_all_marked(d, id, marked, rest@);
    }
    let past_saving: bool = any_committed_pivot(states, &rest);
    proof {
        assert(past_saving == d.past_saving(id)) by {
            if past_saving {
                let w = choose|w: u64|
                    #![trigger rest@.contains(w)]
                    rest@.contains(w) && states@.contains_key(w) && states@[w].pivot()
                        && states@[w].committed_at != 0;
                assert(rest@.to_set().contains(w));
                assert(d.overwriters(id).contains(w));
                assert(d.beyond_abort(w));
            }
            if d.past_saving(id) {
                let w = choose|w: u64| #[trigger]
                    d.overwriters(id).contains(w) && d.beyond_abort(w);
                assert(!marked.contains(w)) by {
                    if marked.contains(w) {
                        let (m, k) = choose|m: int, k: Seq<u8>|
                            gone_through(i as int, Seq::empty(), 0, m, k)
                                && #[trigger] d.replaced_at(all[m], k, w);
                    }
                }
                assert(marked.union(rest@.to_set()).contains(w));
                assert(rest@.contains(w));
                assert(states@[w].pivot());
            }
        }
    }
    Outgoing { changed: true, past_saving }
}

proof fn lemma_so_far_same<T: Versioned>(
    d: DbView<T>,
    id: u64,
    marked: Set<u64>,
    i: int,
    changes: Seq<Changed>,
)
    requires
        so_far(d, id, marked, i, Seq::empty(), 0),
    ensures
        so_far(d, id, marked, i, changes, 0),
{
    let reads = d.txns[id].reads;
    let none = Seq::<Changed>::empty();
    assert forall|m: int, k: Seq<u8>| #[trigger] gone_through(i, changes, 0, m, k) == gone_through(
        i,
        none,
        0,
        m,
        k,
    ) by {}
    assert forall|w: u64| #[trigger] marked.contains(w) <==> exists|m: int, k: Seq<u8>|
        gone_through(i, changes, 0, m, k) && #[trigger] d.replaced_at(reads[m], k, w) by {
        if marked.contains(w) {
            let (m, k) = choose|m: int, k: Seq<u8>|
                gone_through(i, none, 0, m, k) && #[trigger] d.replaced_at(reads[m], k, w);
            assert(gone_through(i, changes, 0, m, k));
        }
        if exists|m: int, k: Seq<u8>|
            gone_through(i, changes, 0, m, k) && #[trigger] d.replaced_at(reads[m], k, w) {
            let (m, k) = choose|m: int, k: Seq<u8>|
                gone_through(i, changes, 0, m, k) && #[trigger] d.replaced_at(reads[m], k, w);
            assert(gone_through(i, none, 0, m, k));
        }
    }
}

/// When all reads have been gone through and those are added who were overwritten
/// in turn, everyone to be marked is.
proof fn lemma_all_marked<T: Versioned>(d: DbView<T>, id: u64, marked: Set<u64>, rest: Seq<u64>)
    requires
        so_far(d, id, marked, d.txns[id].reads.len() as int, Seq::empty(), 0),
        forall|w: u64| #[trigger]
            rest.contains(w) <==> exists|i: int|
                0 <= i < d.txns[id].reads.len() && d.missed_by(
                    #[trigger] d.txns[id].reads[i],
                    d.txns[id].snapshot,
                    w,
                ),
    ensures
        d.marked(id) == d.overwriters(id),
        d.overwriters(id) == marked.union(rest.to_set()),
{
    let reads = d.txns[id].reads;
    let none = Seq::<Changed>::empty();
    let n = reads.len() as int;
    assert forall|i: int, k: Seq<u8>, w: u64|
        0 <= i < n && #[trigger] d.replaced_at(reads[i], k, w) implies !d.beyond_abort(w) by {
        assert(gone_through(n, none, 0, i, k));
    }
    assert forall|w: u64| #[trigger] d.overwriters(id).contains(w) <==> marked.union(
        rest.to_set(),
    ).contains(w) by {
        if d.overwriters(id).contains(w) {
            let i = choose|i: int|
                0 <= i < n && d.changed_by(#[trigger] reads[i], d.txns[id].snapshot, w);
            if d.replaced_by(reads[i], w) {
                let k = choose|k: Seq<u8>| #[trigger] d.replaced_at(reads[i], k, w);
                assert(gone_through(n, none, 0, i, k));
                assert(marked.contains(w));
            } else {
                assert(d.missed_by(reads[i], d.txns[id].snapshot, w));
                assert(rest.contains(w));
            }
        }
        if marked.contains(w) {
            let (m, k) = choose|m: int, k: Seq<u8>|
                gone_through(n, none, 0, m, k) && #[trigger] d.replaced_at(reads[m], k, w);
            assert(d.replaced_by(reads[m], w));
            assert(d.changed_by(reads[m], d.txns[id].snapshot, w));
        }
        if rest.contains(w) {
            let i = choose|i: int|
                0 <= i < n && d.missed_by(#[trigger] reads[i], d.txns[id].snapshot, w);
            assert(d.changed_by(reads[i], d.txns[id].snapshot, w));
        }
    }
    assert(d.overwriters(id) =~= marked.union(rest.to_set()));
}

/// Everyone who wrote something that one of these reads did not see.
fn all_overlooked<T: Versioned>(
    tables: &Vec<Table<T>>,
    reads: &Vec<Read<T>>,
    since: Timestamp,
    now: Timestamp,
    Ghost(d): Ghost<DbView<T>>,
    Ghost(id): Ghost<u64>,
) -> (r: Vec<u64>)
    requires
        forall|t: int| 0 <= t < tables@.len() ==> (#[trigger] tables@[t]).wf(),
        d.tables == views(tables@),
        now.0 == d.clock.watermark,
        since.0 == d.txns[id].snapshot,
        d.txn_ok(id),
        d.txns[id].reads == reads@.map_values(|r: Read<T>| r@),
    ensures
        forall|w: u64| #[trigger]
            r@.contains(w) <==> exists|i: int|
                0 <= i < d.txns[id].reads.len() && d.missed_by(
                    #[trigger] d.txns[id].reads[i],
                    d.txns[id].snapshot,
                    w,
                ),
{
    let ghost all = d.txns[id].reads;
    let mut writers: Vec<u64> = Vec::new();
    let mut i: usize = 0;
    while i < reads.len()
        invariant
            i <= reads@.len(),
            forall|t: int| 0 <= t < tables@.len() ==> (#[trigger] tables@[t]).wf(),
            d.tables == views(tables@),
            now.0 == d.clock.watermark,
            since.0 == d.txns[id].snapshot,
            d.txn_ok(id),
            all == d.txns[id].reads,
            all == reads@.map_values(|r: Read<T>| r@),
            forall|w: u64| #[trigger]
                writers@.contains(w) <==> exists|j: int|
                    0 <= j < i && d.missed_by(#[trigger] all[j], since.0, w),
        decreases reads@.len() - i,
    {
        let read = &reads[i];
        let ghost rv = all[i as int];
        assert(rv == read@);
        assert(d.read_ok(rv));
        assert(d.tables[rv.table] == tables@[rv.table]@);
        let ghost before = writers@;
        overlooked(&tables[read.table], read, since, now, &mut writers);
        proof {
            assert forall|w: u64| #[trigger]
                writers@.contains(w) <==> exists|j: int|
                    0 <= j < i + 1 && d.missed_by(#[trigger] all[j], since.0, w) by {
                assert(writers@.contains(w) <==> before.contains(w) || d.missed_by(rv, since.0, w));
                if before.contains(w) {
                    let j = choose|j: int| 0 <= j < i && d.missed_by(#[trigger] all[j], since.0, w);
                    assert(0 <= j < i + 1);
                }
                if exists|j: int| 0 <= j < i + 1 && d.missed_by(#[trigger] all[j], since.0, w) {
                    let j = choose|j: int|
                        0 <= j < i + 1 && d.missed_by(#[trigger] all[j], since.0, w);
                    if j < i {
                        assert(before.contains(w));
                    }
                }
            }
        }
        i = i + 1;
    }
    writers
}

/// Record an outgoing conflict on each of these transactions.
fn mark_outgoing(states: &mut TxnTable, ids: &Vec<u64>)
    requires
        old(states).wf(),
        filed(old(states)@),
    ensures
        final(states).wf(),
        filed(final(states)@),
        final(states)@ == with_outgoing(old(states)@, ids@.to_set()),
{
    let mut i: usize = 0;
    assert(ids@.take(0).to_set() =~= Set::empty());
    assert(states@ =~= with_outgoing(states@, ids@.take(0).to_set()));
    while i < ids.len()
        invariant
            i <= ids@.len(),
            states.wf(),
            filed(states@),
            states@ == with_outgoing(old(states)@, ids@.take(i as int).to_set()),
        decreases ids@.len() - i,
    {
        let id: u64 = ids[i];
        match states.get(id) {
            Some(state) => {
                let mut state = state;
                state.set_out_conflict();
                states.put(state);
            },
            None => {},
        }
        proof {
            lemma_take_set(ids@, i as int);
            assert(states@ =~= with_outgoing(old(states)@, ids@.take(i + 1).to_set()));
        }
        i = i + 1;
    }
    assert(ids@.take(i as int) =~= ids@);
}

proof fn lemma_take_set(ids: Seq<u64>, i: int)
    requires
        0 <= i < ids.len(),
    ensures
        ids.take(i + 1).to_set() == ids.take(i).to_set().insert(ids[i]),
{
    let a = ids.take(i);
    let b = ids.take(i + 1);
    assert forall|x: u64| b.to_set().contains(x) <==> a.to_set().insert(ids[i]).contains(x) by {
        if b.contains(x) {
            let j = choose|j: int| 0 <= j < b.len() && b[j] == x;
            if j < i {
                assert(a[j] == x);
            }
        }
        if a.contains(x) {
            let j = choose|j: int| 0 <= j < a.len() && a[j] == x;
            assert(b[j] == x);
        }
        assert(b[i] == ids[i]);
    }
    assert(b.to_set() =~= a.to_set().insert(ids[i]));
}

/// The tables once the read locks of the slots in `done` are purged.
spec fn purging<T: Versioned>(
    tables: Seq<TableView<T>>,
    done: Seq<(usize, IndexKey)>,
    states: Map<u64, TxnState>,
    gc: u64,
) -> Seq<TableView<T>> {
    Seq::new(
        tables.len(),
        |t: int|
            TableView {
                slots: Map::total(
                    |k: Seq<u8>|
                        if lists_write(done, t, k) {
                            tables[t].slots[k].purged(states, gc)
                        } else {
                            tables[t].slots[k]
                        },
                ),
                locks: if exists|k: Seq<u8>| lists_write(done, t, k) {
                    live_locks(tables[t].locks, states, gc)
                } else {
                    tables[t].locks
                },
                ..tables[t]
            },
    )
}

/// Listing one more slot.
proof fn lemma_lists_more(done: Seq<(usize, IndexKey)>, more: Seq<(usize, IndexKey)>)
    requires
        more.len() == done.len() + 1,
        more.drop_last() == done,
    ensures
        forall|t: int, k: Seq<u8>| #[trigger]
            lists_write(more, t, k) <==> lists_write(done, t, k) || (t == more.last().0 && k
                == more.last().1@),
{
    let n = done.len() as int;
    assert forall|t: int, k: Seq<u8>| #[trigger]
        lists_write(more, t, k) <==> lists_write(done, t, k) || (t == more.last().0 && k
            == more.last().1@) by {
        if lists_write(more, t, k) {
            let i = choose|i: int|
                0 <= i < more.len() && (#[trigger] more[i]).0 == t && more[i].1@ == k;
            if i < n {
                assert(done[i] == more[i]);
            }
        }
        if lists_write(done, t, k) {
            let i = choose|i: int|
                0 <= i < done.len() && (#[trigger] done[i]).0 == t && done[i].1@ == k;
            assert(more[i] == done[i]);
        }
        if t == more.last().0 && k == more.last().1@ {
            assert(more[n].0 == t && more[n].1@ == k);
        }
    }
}

/// Did anyone read what was overwritten? Purges the read locks on the way.
fn incoming<T: Versioned>(
    tables: &mut Vec<Table<T>>,
    writes: &Vec<(usize, IndexKey)>,
    id: TxnId,
    states: &TxnTable,
    gc: Timestamp,
    Ghost(d): Ghost<DbView<T>>,
) -> (r: Vec<u64>)
    requires
        forall|t: int| 0 <= t < old(tables)@.len() ==> (#[trigger] old(tables)@[t]).wf(),
        d.tables == views(old(tables)@),
        gc.0 == gc_watermark(d.clock),
        forall|t: int| 0 <= t < d.tables.len() ==> (#[trigger] d.tables[t]).in_order(
            d.clock.watermark,
        ),
        forall|t: int, k: Seq<u8>| #[trigger]
            lists_write(writes@, t, k) <==> 0 <= t < d.tables.len() && d.tables[t].slots[k].lock
                == id.0,
        listed_once(writes@),
    ensures
        forall|t: int| 0 <= t < final(tables)@.len() ==> (#[trigger] final(tables)@[t]).wf(),
        views(final(tables)@) == d.tables_purged(id.0, states@),
        forall|x: u64| #[trigger]
            r@.contains(x) <==> d.overwritten_readers(id.0, states@).contains(x),
{
    let mut out: Vec<u64> = Vec::new();
    let mut i: usize = 0;
    let ghost base = d.tables;
    proof {
        let none = writes@.take(0);
        assert(views(tables@) =~= purging(base, none, states@, gc.0)) by {
            assert forall|t: int| 0 <= t < base.len() implies views(tables@)[t] == #[trigger] purging(
                base,
                none,
                states@,
                gc.0,
            )[t] by {
                assert(base[t].in_order(d.clock.watermark));
                assert forall|k: Seq<u8>| !#[trigger] lists_write(none, t, k) by {}
                assert(views(tables@)[t] =~= purging(base, none, states@, gc.0)[t]) by {
                    assert(base[t].slots =~= purging(base, none, states@, gc.0)[t].slots);
                }
            }
        }
    }
    while i < writes.len()
        invariant
            i <= writes@.len(),
            base == d.tables,
            gc.0 == gc_watermark(d.clock),
            tables@.len() == base.len(),
            forall|t: int| 0 <= t < tables@.len() ==> (#[trigger] tables@[t]).wf(),
            forall|t: int, k: Seq<u8>| #[trigger]
                lists_write(writes@, t, k) <==> 0 <= t < d.tables.len()
                    && d.tables[t].slots[k].lock == id.0,
            listed_once(writes@),
            views(tables@) == purging(base, writes@.take(i as int), states@, gc.0),
            forall|x: u64| #[trigger]
                out@.contains(x) <==> x != id.0 && !expired(states@, x, gc.0) && exists|j: int|
                    0 <= j < i && reads_slot(base, #[trigger] writes@[j], x),
        decreases writes@.len() - i,
    {
        let t: usize = writes[i].0;
        let key = &writes[i].1;
        let ghost done = writes@.take(i as int);
        let ghost more = writes@.take(i + 1);
        let ghost before = out@;
        let ghost bt = tables@;
        proof {
            assert(more.drop_last() =~= done);
            assert(more.last() == writes@[i as int]);
            lemma_lists_more(done, more);
            assert(lists_write(writes@, t as int, key@));
            assert(!lists_write(done, t as int, key@)) by {
                if lists_write(done, t as int, key@) {
                    let j = choose|j: int|
                        0 <= j < done.len() && (#[trigger] done[j]).0 == t && done[j].1@ == key@;
                    assert(writes@[j] == done[j]);
                    assert(writes@[i as int].0 == t);
                }
            }
            assert(views(tables@)[t as int] == tables@[t as int]@);
        }
        let found: Vec<u64> = tables[t].conflicting_readers(key, id, states, gc);
        append_ids(&mut out, &found);
        proof {
            let tv = bt[t as int]@;
            assert(tv == purging(base, done, states@, gc.0)[t as int]);
            assert(views(tables@) =~= purging(base, more, states@, gc.0)) by {
                assert forall|u: int| 0 <= u < base.len() implies views(tables@)[u]
                    == #[trigger] purging(base, more, states@, gc.0)[u] by {
                    let goal = purging(base, more, states@, gc.0)[u];
                    let prev = purging(base, done, states@, gc.0)[u];
                    assert(views(bt)[u] == prev);
                    if u == t {
                        assert(lists_write(more, u, key@));
                        if exists|k: Seq<u8>| lists_write(done, u, k) {
                            lemma_live_locks_twice(base[u].locks, states@, gc.0);
                        }
                        assert(views(tables@)[u].slots =~= goal.slots);
                        assert(views(tables@)[u] =~= goal);
                    } else {
                        assert forall|k: Seq<u8>| #[trigger] lists_write(more, u, k) == lists_write(
                            done,
                            u,
                            k,
                        ) by {}
                        if exists|k: Seq<u8>| lists_write(done, u, k) {
                            let k = choose|k: Seq<u8>| lists_write(done, u, k);
                            assert(lists_write(more, u, k));
                        }
                        assert(prev.slots =~= goal.slots);
                        assert(prev =~= goal);
                    }
                }
            }
            assert forall|x: u64| #[trigger]
                found@.contains(x) <==> x != id.0 && !expired(states@, x, gc.0) && reads_slot(
                    base,
                    writes@[i as int],
                    x,
                ) by {
                if !expired(states@, x, gc.0) {
                    lemma_watched_live(base[t as int], tv, key@, x, states@, gc.0);
                }
            }
            assert forall|x: u64| #[trigger]
                out@.contains(x) <==> x != id.0 && !expired(states@, x, gc.0) && exists|j: int|
                    0 <= j < i + 1 && reads_slot(base, #[trigger] writes@[j], x) by {
                if before.contains(x) {
                    let j = choose|j: int| 0 <= j < i && reads_slot(base, #[trigger] writes@[j], x);
                    assert(0 <= j < i + 1);
                }
                if x != id.0 && !expired(states@, x, gc.0) && exists|j: int|
                    0 <= j < i + 1 && reads_slot(base, #[trigger] writes@[j], x) {
                    let j = choose|j: int|
                        0 <= j < i + 1 && reads_slot(base, #[trigger] writes@[j], x);
                    if j < i {
                        assert(before.contains(x));
                    } else {
                        assert(found@.contains(x));
                    }
                }
            }
        }
        i = i + 1;
    }
    proof {
        assert(writes@.take(i as int) =~= writes@);
        assert(views(tables@) =~= d.tables_purged(id.0, states@)) by {
            assert forall|t: int| 0 <= t < base.len() implies purging(
                base,
                writes@,
                states@,
                gc.0,
            )[t] == #[trigger] d.tables_purged(id.0, states@)[t] by {
                let a = purging(base, writes@, states@, gc.0)[t];
                let b = d.tables_purged(id.0, states@)[t];
                assert forall|k: Seq<u8>| #[trigger]
                    lists_write(writes@, t, k) == (base[t].slots[k].lock == id.0) by {}
                if base[t].written_by(id.0) {
                    let k = choose|k: Seq<u8>| (#[trigger] base[t].slots[k]).lock == id.0;
                    assert(lists_write(writes@, t, k));
                }
                if exists|k: Seq<u8>| lists_write(writes@, t, k) {
                    let k = choose|k: Seq<u8>| lists_write(writes@, t, k);
                    let y = base[t].slots[k];
                    assert(base[t].written_by(id.0));
                }
                assert forall|k: Seq<u8>| #[trigger] a.slots[k] == b.slots[k] by {
                    assert(lists_write(writes@, t, k) == (base[t].slots[k].lock == id.0));
                }
                assert(a.slots =~= b.slots);
                assert(a =~= b);
            }
        }
        assert forall|x: u64| #[trigger]
            out@.contains(x) <==> d.overwritten_readers(id.0, states@).contains(x) by {
            if out@.contains(x) {
                let j = choose|j: int|
                    0 <= j < writes@.len() && reads_slot(base, #[trigger] writes@[j], x);
                let t = writes@[j].0 as int;
                let k = writes@[j].1@;
                assert(writes@[j].0 == t && writes@[j].1@ == k);
                assert(lists_write(writes@, t, k));
                assert(overwrites(d.tables[t], k, id.0, x));
                assert(d.read_under(id.0, t, x));
            }
            if d.overwritten_readers(id.0, states@).contains(x) {
                let t = choose|t: int|
                    0 <= t < d.tables.len() && #[trigger] d.read_under(id.0, t, x);
                let k = choose|k: Seq<u8>| #[trigger] overwrites(d.tables[t], k, id.0, x);
                assert(lists_write(writes@, t, k));
                let j = choose|j: int|
                    0 <= j < writes@.len() && (#[trigger] writes@[j]).0 == t && writes@[j].1@ == k;
                assert(reads_slot(base, writes@[j], x));
            }
        }
    }
    out
}

/// Whether `x` read what a write to this slot overwrites.
spec fn reads_slot<T: Versioned>(
    tables: Seq<TableView<T>>,
    write: (usize, IndexKey),
    x: u64,
) -> bool {
    let tv = tables[write.0 as int];
    tv.slots[write.1@].readers.contains(x) || watched(tv, write.1@, x)
}

/// Steps that neither take nor release slots and claims leave every list valid.
proof fn lemma_quiet_linked<T: Versioned>(a: DbView<T>, b: DbView<T>, x: u64, l: TxnLocal<T>)
    requires
        linked(a.tables, x, l),
        a.tables.len() == b.tables.len(),
        forall|t: int|
            #![trigger b.tables[t]]
            0 <= t < a.tables.len() ==> b.tables[t].claims == a.tables[t].claims && forall|
                k: Seq<u8>,
            |
                #![trigger b.tables[t].slots[k]]
                b.tables[t].slots[k].lock == a.tables[t].slots[k].lock,
    ensures
        linked(b.tables, x, l),
{
    assert forall|t: int, p: int, ik: Seq<u8>|
        #![trigger b.tables[t].holds_claim(p, ik, x)]
        0 <= t < a.tables.len() && 0 <= p < a.tables[t].claims.len() implies (
    b.tables[t].holds_claim(p, ik, x) <==> a.tables[t].holds_claim(p, ik, x)) by {
        let y = b.tables[t];
    }
    assert forall|t: int, k: Seq<u8>|
        #![trigger b.tables[t].slots[k]]
        0 <= t < a.tables.len() implies (b.tables[t].slots[k].lock == x
        <==> a.tables[t].slots[k].lock == x) by {
        let y = b.tables[t];
    }
    assert forall|t: int|
        #![trigger b.tables[t].claims]
        0 <= t < a.tables.len() implies b.tables[t].claims.len() == a.tables[t].claims.len() by {
        let y = b.tables[t];
    }
    lemma_still_linked(a.tables, b.tables, x, l);
}

/// What `id` gives up when it finishes is nobody else's.
proof fn lemma_released_linked<T: Versioned>(
    a: Seq<TableView<T>>,
    b: Seq<TableView<T>>,
    id: u64,
    x: u64,
    l: TxnLocal<T>,
)
    requires
        linked(a, x, l),
        x != id,
        x != 0,
        a.len() == b.len(),
        forall|t: int|
            #![trigger b[t]]
            0 <= t < a.len() ==> b[t].claims == a[t].claims.map_values(
                |c: Map<Seq<u8>, u64>| released(c, id),
            ) && forall|k: Seq<u8>|
                #![trigger b[t].slots[k]]
                b[t].slots[k].lock == (if a[t].slots[k].lock == id {
                    0
                } else {
                    a[t].slots[k].lock
                }),
    ensures
        linked(b, x, l),
{
    assert forall|t: int, p: int, ik: Seq<u8>|
        #![trigger b[t].holds_claim(p, ik, x)]
        0 <= t < a.len() && 0 <= p < a[t].claims.len() implies (b[t].holds_claim(p, ik, x)
        <==> a[t].holds_claim(p, ik, x)) by {
        let y = b[t];
        assert(b[t].claims[p] == released(a[t].claims[p], id));
    }
    assert forall|t: int, k: Seq<u8>|
        #![trigger b[t].slots[k]]
        0 <= t < a.len() implies (b[t].slots[k].lock == x <==> a[t].slots[k].lock == x) by {
        let y = b[t];
    }
    assert forall|t: int|
        #![trigger b[t].claims]
        0 <= t < a.len() implies b[t].claims.len() == a[t].claims.len() by {
        let y = b[t];
    }
    lemma_still_linked(a, b, x, l);
}

/// The tables once `f` was applied to the slots in `done`.
spec fn rewritten<T: Versioned>(
    tables: Seq<TableView<T>>,
    done: Seq<(usize, IndexKey)>,
    f: spec_fn(SlotView<T>) -> SlotView<T>,
) -> Seq<TableView<T>> {
    Seq::new(
        tables.len(),
        |t: int|
            TableView {
                slots: Map::total(
                    |k: Seq<u8>|
                        if lists_write(done, t, k) {
                            f(tables[t].slots[k])
                        } else {
                            tables[t].slots[k]
                        },
                ),
                ..tables[t]
            },
    )
}

proof fn lemma_nothing_rewritten<T: Versioned>(
    tables: Seq<TableView<T>>,
    f: spec_fn(SlotView<T>) -> SlotView<T>,
    now: u64,
)
    requires
        forall|t: int| 0 <= t < tables.len() ==> (#[trigger] tables[t]).in_order(now),
    ensures
        rewritten(tables, Seq::empty(), f) == tables,
{
    let done = Seq::<(usize, IndexKey)>::empty();
    assert forall|t: int| 0 <= t < tables.len() implies tables[t] == #[trigger] rewritten(
        tables,
        done,
        f,
    )[t] by {
        assert(tables[t].in_order(now));
        assert forall|k: Seq<u8>| !#[trigger] lists_write(done, t, k) by {}
        assert(tables[t].slots =~= rewritten(tables, done, f)[t].slots);
        assert(tables[t] =~= rewritten(tables, done, f)[t]);
    }
    assert(rewritten(tables, done, f) =~= tables);
}

/// Rewriting one more slot, not rewritten before.
proof fn lemma_rewritten_more<T: Versioned>(
    tables: Seq<TableView<T>>,
    writes: Seq<(usize, IndexKey)>,
    i: int,
    f: spec_fn(SlotView<T>) -> SlotView<T>,
    after: Seq<TableView<T>>,
)
    requires
        0 <= i < writes.len(),
        listed_once(writes),
        writes[i].0 < tables.len(),
        ({
            let t = writes[i].0 as int;
            let k = writes[i].1@;
            let now = rewritten(tables, writes.take(i), f);
            after == now.update(
                t,
                TableView { slots: now[t].slots.insert(k, f(now[t].slots[k])), ..now[t] },
            )
        }),
    ensures
        after == rewritten(tables, writes.take(i + 1), f),
{
    let done = writes.take(i);
    let more = writes.take(i + 1);
    let t = writes[i].0 as int;
    let k = writes[i].1@;
    let now = rewritten(tables, done, f);
    let goal = rewritten(tables, more, f);
    assert(more.drop_last() =~= done);
    assert(more.last() == writes[i]);
    lemma_lists_more(done, more);
    lemma_not_yet(writes, i);
    assert forall|u: int| 0 <= u < tables.len() implies after[u] == #[trigger] goal[u] by {
        assert forall|j: Seq<u8>| #[trigger] after[u].slots[j] == goal[u].slots[j] by {
            assert(lists_write(more, u, j) <==> lists_write(done, u, j) || (u == t && j == k));
        }
        assert(after[u].slots =~= goal[u].slots);
        assert(after[u] =~= goal[u]);
    }
    assert(after =~= goal);
}

/// A slot is not among those listed before it.
proof fn lemma_not_yet(writes: Seq<(usize, IndexKey)>, i: int)
    requires
        0 <= i < writes.len(),
        listed_once(writes),
    ensures
        !lists_write(writes.take(i), writes[i].0 as int, writes[i].1@),
{
    let done = writes.take(i);
    if lists_write(done, writes[i].0 as int, writes[i].1@) {
        let j = choose|j: int|
            0 <= j < done.len() && (#[trigger] done[j]).0 == writes[i].0 as int && done[j].1@
                == writes[i].1@;
        assert(writes[j] == done[j]);
        assert(writes[i] == writes[i]);
    }
}

/// The claims of every table with those of `id` gone from the listed ones on.
spec fn claims_left<T: Versioned>(
    tables: Seq<TableView<T>>,
    done: Seq<(usize, usize, IndexKey)>,
    id: u64,
) -> Seq<TableView<T>> {
    Seq::new(
        tables.len(),
        |t: int|
            TableView {
                claims: Seq::new(
                    tables[t].claims.len(),
                    |p: int|
                        Map::new(
                            |ik: Seq<u8>|
                                tables[t].claims[p].contains_key(ik) && !lists_claim(
                                    done,
                                    t,
                                    p,
                                    ik,
                                ),
                            |ik: Seq<u8>| tables[t].claims[p][ik],
                        ),
                ),
                ..tables[t]
            },
    )
}

impl<T: Versioned> Database<T> {
    /// The pieces are those of `d`, but for what is kept of `id`, which is
    /// `local`.
    closed spec fn detached(&self, d: DbView<T>, id: u64, local: TxnLocal<T>) -> bool {
        &&& self.pieces_wf()
        &&& d.inv()
        &&& d.live(id)
        &&& !self.txns@.contains_key(id)
        &&& d.clock == self.oracle@
        &&& d.tables == views(self.tables@)
        &&& d.states == self.states@
        &&& d.gc_hint == self.gc_hint
        &&& d.txns == self.txns@.map_values(|l: TxnLocal<T>| l@).insert(id, local@)
        &&& linked(d.tables, id, local)
        &&& forall|x: u64| #[trigger]
            self.txns@.contains_key(x) ==> linked(d.tables, x, self.txns@[x])
    }

    /// Find the read/write conflicts of `id` and record them on the states
    /// involved. Returns `false` if it must not commit.
    ///
    /// A transaction must abort when it is a pivot: something it read was
    /// overwritten, and something it overwrote was read. One of the two is not
    /// enough, since such a transaction can still be ordered.
    fn detect_conflicts(&mut self, id: TxnId, local: &TxnLocal<T>, Ghost(d): Ghost<DbView<T>>) -> (r:
        bool)
        requires
            old(self).detached(d, id.0, *local),
            local.rules.validates_reads,
        ensures
            final(self).detached(d.detected(id.0).0, id.0, *local),
            r == d.detected(id.0).1,
    {
        proof {
            lemma_detected_inv(d, id.0);
            assert(d.txns[id.0] == local@);
            assert(d.txn_ok(id.0));
        }
        let ghost e = d.detected(id.0).0;
        let now = self.oracle.statement_snapshot();
        let outcome = outgoing(
            &self.tables,
            &local.reads,
            &mut self.states,
            local.snapshot,
            now,
            Ghost(d),
            Ghost(id.0),
        );
        if outcome.changed {
            let mut mine = self.states.get(id.0).unwrap();
            mine.set_out_conflict();
            self.states.put(mine);
        }
        proof {
            assert(self.states@ =~= d.states_outgoing(id.0));
            assert(d.states_outgoing(id.0).contains_key(id.0));
        }
        let ghost states = d.states_outgoing(id.0);
        let mine = self.states.get(id.0).unwrap();
        if outcome.past_saving || mine.is_pivot() {
            proof {
                self.lemma_detected_pieces(*old(self), d, id.0, *local);
            }
            return false;
        }
        if !mine.has_out_conflict() {
            proof {
                self.lemma_detected_pieces(*old(self), d, id.0, *local);
            }
            return true;
        }
        let gc = self.oracle.gc_watermark();
        proof {
            lemma_gc_watermark(d.clock, gc.0);
            assert forall|t: int| 0 <= t < d.tables.len() implies (
            #[trigger] d.tables[t]).in_order(d.clock.watermark) by {
                assert(d.tables[t].sound(d.clock.watermark));
            }
        }
        let readers = incoming(&mut self.tables, &local.writes, id, &self.states, gc, Ghost(d));
        proof {
            assert(readers@.to_set() =~= d.overwritten_readers(id.0, states)) by {
                assert forall|w: u64| readers@.to_set().contains(w) == d.overwritten_readers(
                    id.0,
                    states,
                ).contains(w) by {
                    assert(readers@.contains(w) == d.overwritten_readers(id.0, states).contains(
                        w,
                    ));
                }
            }
        }
        mark_outgoing(&mut self.states, &readers);
        let ghost marked = self.states@;
        let mut mine = self.states.get(id.0).unwrap();
        if readers.len() > 0 {
            mine.set_in_conflict();
            self.states.put(mine);
            proof {
                assert(readers@.to_set().contains(readers@[0]));
                assert(!d.overwritten_readers(id.0, states).is_empty());
            }
        } else {
            assert(d.overwritten_readers(id.0, states).is_empty()) by {
                assert(readers@.to_set() =~= Set::empty());
            }
        }
        proof {
            assert(self.states@ =~= e.states);
            self.lemma_detected_pieces(*old(self), d, id.0, *local);
        }
        !mine.is_pivot()
    }

    proof fn lemma_detected_pieces(
        &self,
        before: Database<T>,
        d: DbView<T>,
        id: u64,
        local: TxnLocal<T>,
    )
        requires
            before.detached(d, id, local),
            self.pieces_wf(),
            local.rules.validates_reads,
            self.oracle == before.oracle,
            self.txns == before.txns,
            self.gc_hint == before.gc_hint,
            views(self.tables@) == d.detected(id).0.tables,
            self.states@ == d.detected(id).0.states,
        ensures
            self.detached(d.detected(id).0, id, local),
    {
        let e = d.detected(id).0;
        lemma_detected_inv(d, id);
        assert forall|t: int|
            #![trigger e.tables[t]]
            0 <= t < d.tables.len() implies e.tables[t].claims == d.tables[t].claims && forall|
            k: Seq<u8>,
        |
            #![trigger e.tables[t].slots[k]]
            e.tables[t].slots[k].lock == d.tables[t].slots[k].lock by {
            assert(quieter(d.tables[t], e.tables[t]));
        }
        lemma_quiet_linked(d, e, id, local);
        assert forall|x: u64| #[trigger] self.txns@.contains_key(x) implies linked(
            e.tables,
            x,
            self.txns@[x],
        ) by {
            assert(before.txns@.contains_key(x));
            lemma_quiet_linked(d, e, x, self.txns@[x]);
        }
    }
}

/// Whether one of these transactions has committed and is a pivot.
fn any_committed_pivot(states: &TxnTable, ids: &Vec<u64>) -> (r: bool)
    ensures
        r == exists|w: u64|
            #![trigger ids@.contains(w)]
            ids@.contains(w) && states@.contains_key(w) && states@[w].pivot()
                && states@[w].committed_at != 0,
{
    let mut i: usize = 0;
    while i < ids.len()
        invariant
            i <= ids@.len(),
            forall|j: int|
                0 <= j < i ==> {
                    let w = #[trigger] ids@[j];
                    !(states@.contains_key(w) && states@[w].pivot() && states@[w].committed_at
                        != 0)
                },
        decreases ids@.len() - i,
    {
        match states.get(ids[i]) {
            Some(state) => {
                if state.is_pivot() && state.is_committed() {
                    assert(ids@.contains(ids@[i as int]));
                    return true;
                }
            },
            None => {},
        }
        i = i + 1;
    }
    assert forall|w: u64|
        #![trigger ids@.contains(w)]
        ids@.contains(w) implies !(states@.contains_key(w) && states@[w].pivot()
        && states@[w].committed_at != 0) by {
        let j = choose|j: int| 0 <= j < ids@.len() && ids@[j] == w;
        let x = ids@[j];
    }
    false
}

/// Give up the claims of a transaction that has finished.
fn release_claims<T: Versioned>(
    tables: &mut Vec<Table<T>>,
    claims: &Vec<(usize, usize, IndexKey)>,
    id: TxnId,
    Ghost(base): Ghost<Seq<TableView<T>>>,
)
    requires
        forall|t: int| 0 <= t < old(tables)@.len() ==> (#[trigger] old(tables)@[t]).wf(),
        views(old(tables)@) == base,
        forall|t: int, p: int, ik: Seq<u8>| #[trigger]
            lists_claim(claims@, t, p, ik) <==> 0 <= t < base.len() && 0 <= p
                < base[t].claims.len() && base[t].holds_claim(p, ik, id.0),
    ensures
        forall|t: int| 0 <= t < final(tables)@.len() ==> (#[trigger] final(tables)@[t]).wf(),
        views(final(tables)@) == base.map_values(
            |tv: TableView<T>|
                TableView {
                    claims: tv.claims.map_values(|c: Map<Seq<u8>, u64>| released(c, id.0)),
                    ..tv
                },
        ),
{
    let mut i: usize = 0;
    proof {
        let none = claims@.take(0);
        assert forall|t: int| 0 <= t < base.len() implies base[t] == #[trigger] claims_left(
            base,
            none,
            id.0,
        )[t] by {
            let goal = claims_left(base, none, id.0)[t];
            assert forall|p: int| 0 <= p < base[t].claims.len() implies base[t].claims[p]
                == #[trigger] goal.claims[p] by {
                assert forall|ik: Seq<u8>| !#[trigger] lists_claim(none, t, p, ik) by {}
                assert(base[t].claims[p] =~= goal.claims[p]);
            }
            assert(base[t].claims =~= goal.claims);
            assert(base[t] =~= goal);
        }
        assert(views(tables@) =~= claims_left(base, none, id.0));
    }
    while i < claims.len()
        invariant
            i <= claims@.len(),
            tables@.len() == base.len(),
            forall|t: int| 0 <= t < tables@.len() ==> (#[trigger] tables@[t]).wf(),
            forall|t: int, p: int, ik: Seq<u8>| #[trigger]
                lists_claim(claims@, t, p, ik) <==> 0 <= t < base.len() && 0 <= p
                    < base[t].claims.len() && base[t].holds_claim(p, ik, id.0),
            views(tables@) == claims_left(base, claims@.take(i as int), id.0),
        decreases claims@.len() - i,
    {
        let t: usize = claims[i].0;
        let p: usize = claims[i].1;
        let ik = &claims[i].2;
        let ghost done = claims@.take(i as int);
        let ghost more = claims@.take(i + 1);
        let ghost before = views(tables@);
        proof {
            assert(claims@[i as int].0 == t && claims@[i as int].1 == p);
            assert(lists_claim(claims@, t as int, p as int, ik@));
            assert(before[t as int] == tables@[t as int]@);
            tables@[t as int].lemma_wf();
        }
        tables[t].release_unique(p, ik, id);
        proof {
            let goal = claims_left(base, more, id.0);
            assert forall|u: int, q: int, jk: Seq<u8>| #[trigger]
                lists_claim(more, u, q, jk) <==> lists_claim(done, u, q, jk) || (u == t && q == p
                    && jk == ik@) by {
                if lists_claim(more, u, q, jk) {
                    let j = choose|j: int|
                        0 <= j < more.len() && (#[trigger] more[j]).0 == u && more[j].1 == q
                            && more[j].2@ == jk;
                    if j < i {
                        assert(done[j] == more[j]);
                    }
                }
                if lists_claim(done, u, q, jk) {
                    let j = choose|j: int|
                        0 <= j < done.len() && (#[trigger] done[j]).0 == u && done[j].1 == q
                            && done[j].2@ == jk;
                    assert(more[j] == done[j]);
                }
                if u == t && q == p && jk == ik@ {
                    assert(more[i as int].0 == u && more[i as int].1 == q && more[i as int].2@
                        == jk);
                }
            }
            assert forall|u: int| 0 <= u < base.len() implies views(tables@)[u]
                == #[trigger] goal[u] by {
                let now = views(tables@)[u];
                assert(before[u] == claims_left(base, done, id.0)[u]);
                assert(now.claims.len() == base[u].claims.len());
                assert forall|q: int| 0 <= q < base[u].claims.len() implies now.claims[q]
                    == #[trigger] goal[u].claims[q] by {
                    assert(before[u].claims[q] == claims_left(base, done, id.0)[u].claims[q]);
                    assert forall|jk: Seq<u8>| #[trigger] now.claims[q].contains_key(jk)
                        == goal[u].claims[q].contains_key(jk) by {
                        let y = lists_claim(more, u, q, jk);
                        let z = lists_claim(done, u, q, jk);
                    }
                    assert(now.claims[q] =~= goal[u].claims[q]);
                }
                assert(now.claims =~= goal[u].claims);
                assert(now =~= goal[u]);
            }
            assert(views(tables@) =~= goal);
        }
        i = i + 1;
    }
    proof {
        assert(claims@.take(i as int) =~= claims@);
        let goal = base.map_values(
            |tv: TableView<T>|
                TableView {
                    claims: tv.claims.map_values(|c: Map<Seq<u8>, u64>| released(c, id.0)),
                    ..tv
                },
        );
        assert forall|t: int| 0 <= t < base.len() implies claims_left(base, claims@, id.0)[t]
            == #[trigger] goal[t] by {
            let a = claims_left(base, claims@, id.0)[t];
            assert forall|p: int| 0 <= p < base[t].claims.len() implies a.claims[p]
                == #[trigger] goal[t].claims[p] by {
                assert forall|ik: Seq<u8>| #[trigger] a.claims[p].contains_key(ik)
                    == goal[t].claims[p].contains_key(ik) by {
                    let y = lists_claim(claims@, t, p, ik);
                }
                assert(a.claims[p] =~= goal[t].claims[p]);
            }
            assert(a.claims =~= goal[t].claims);
            assert(a =~= goal[t]);
        }
        assert(views(tables@) =~= goal);
    }
}

impl<T: Versioned> Database<T> {
    /// Make `id`'s writes visible, and tidy up.
    fn finish(&mut self, id: TxnId, local: TxnLocal<T>, Ghost(d): Ghost<DbView<T>>)
        requires
            old(self).detached(d, id.0, local),
            d.clock.next < FOREVER,
        ensures
            final(self).wf(),
            final(self)@ == d.committed(id.0),
    {
        proof {
            lemma_committed_inv(d, id.0);
            crate::keep::lemma_stamped_inv(d, id.0);
            assert(d.txn_ok(id.0));
            assert(d.txns[id.0] == local@);
        }
        let ghost base = d.tables;
        let hint = Timestamp(self.gc_hint);
        let ts = self.oracle.begin_commit();
        let ghost f = |slot: SlotView<T>| slot.committed(id.0, ts.0, hint.0);
        let mut i: usize = 0;
        proof {
            assert forall|t: int| 0 <= t < base.len() implies (#[trigger] base[t]).in_order(
                d.clock.watermark,
            ) by {
                assert(base[t].sound(d.clock.watermark));
            }
            lemma_nothing_rewritten(base, f, d.clock.watermark);
            assert(local.writes@.take(0) =~= Seq::empty());
        }
        let ghost mid = *self;
        while i < local.writes.len()
            invariant
                i <= local.writes@.len(),
                base == d.tables,
                f == (|slot: SlotView<T>| slot.committed(id.0, ts.0, hint.0)),
                id.0 != 0,
                *self == (Database { tables: self.tables, ..mid }),
                self.tables@.len() == base.len(),
                forall|t: int| 0 <= t < self.tables@.len() ==> (#[trigger] self.tables@[t]).wf(),
                linked(base, id.0, local),
                forall|t: int| 0 <= t < base.len() ==> (#[trigger] base[t]).in_order(
                    d.clock.watermark,
                ),
                views(self.tables@) == rewritten(base, local.writes@.take(i as int), f),
            decreases local.writes@.len() - i,
        {
            let t: usize = local.writes[i].0;
            let key = &local.writes[i].1;
            let ghost now = views(self.tables@);
            proof {
                assert(local.writes@[i as int].0 == t);
                assert(lists_write(local.writes@, t as int, key@));
                lemma_not_yet(local.writes@, i as int);
                assert(base[t as int].in_order(d.clock.watermark));
                assert(now[t as int] == self.tables@[t as int]@);
                assert(now[t as int].slots[key@] == base[t as int].slots[key@]);
                assert(base[t as int].slots[key@].ok_by(d.clock.watermark));
            }
            self.tables[t].commit_slot(key, id, ts, hint);
            proof {
                assert(views(self.tables@) =~= now.update(
                    t as int,
                    TableView {
                        slots: now[t as int].slots.insert(key@, f(now[t as int].slots[key@])),
                        ..now[t as int]
                    },
                ));
                lemma_rewritten_more(base, local.writes@, i as int, f, views(self.tables@));
            }
            i = i + 1;
        }
        let ghost stamped = views(self.tables@);
        assert(local.writes@.take(i as int) =~= local.writes@);
        let ghost installing = self.oracle@;
        proof {
            self.oracle.lemma_wf();
            assert forall|x: u64| !d.clock.published.contains(x) by {}
        }
        self.oracle.publish(ts);
        proof {
            let all = installing.published.insert(ts.0);
            assert(self.oracle@.watermark == ts.0) by {
                if self.oracle@.watermark < ts.0 {
                    assert(all.filter(|t: u64| t > self.oracle@.watermark).contains(ts.0));
                } else if self.oracle@.watermark > ts.0 {
                    assert(all.contains(self.oracle@.watermark));
                }
            }
            assert forall|t: int| 0 <= t < base.len() implies #[trigger] stamped[t].claims
                == base[t].claims by {}
            assert forall|t: int, p: int, ik: Seq<u8>| #[trigger]
                lists_claim(local.claims@, t, p, ik) <==> 0 <= t < stamped.len() && 0 <= p
                    < stamped[t].claims.len() && stamped[t].holds_claim(p, ik, id.0) by {
                if 0 <= t < base.len() {
                    assert(stamped[t].claims == base[t].claims);
                }
            }
        }
        release_claims(&mut self.tables, &local.claims, id, Ghost(stamped));
        match self.states.get(id.0) {
            Some(state) => {
                if local.rules.validates_reads {
                    let mut state = state;
                    state.mark_committed(ts);
                    self.states.put(state);
                }
            },
            None => {},
        }
        self.oracle.release_snapshot(id, local.snapshot);
        proof {
            let b = d.stamped(id.0);
            assert(self.oracle@ =~= b.clock) by {
                assert(self.oracle@.published =~= Set::empty());
                assert(d.clock.published =~= Set::empty());
            }
            assert(self@.tables =~= b.tables) by {
                assert forall|t: int| 0 <= t < base.len() implies views(self.tables@)[t]
                    == #[trigger] b.tables[t] by {
                    let a = views(self.tables@)[t];
                    let c = b.tables[t];
                    assert forall|k: Seq<u8>| #[trigger] a.slots[k] == c.slots[k] by {
                        assert(lists_write(local.writes@, t, k) <==> base[t].slots[k].lock
                            == id.0);
                    }
                    assert(a.slots =~= c.slots);
                    assert(a =~= c);
                }
            }
            assert(self@.txns =~= b.txns);
            assert(self@.states =~= b.states);
            assert(self@ =~= b);
            assert forall|x: u64| #[trigger] self.txns@.contains_key(x) implies linked(
                b.tables,
                x,
                self.txns@[x],
            ) by {
                assert(d.txns.contains_key(x));
                assert(d.txn_ok(x));
                lemma_released_linked(base, b.tables, id.0, x, self.txns@[x]);
            }
        }
        self.tidy(ts);
    }

    /// What rides on some commits: a refresh of the reclamation hint, and a
    /// sweep.
    fn tidy(&mut self, ts: Timestamp)
        requires
            old(self).wf(),
            ts.0 == old(self)@.clock.watermark,
        ensures
            final(self).wf(),
            final(self)@ == old(self)@.refreshed().swept(),
    {
        proof {
            crate::keep::lemma_refreshed_inv(self@);
            crate::keep::lemma_swept_inv(self@.refreshed());
        }
        let ghost a = self@;
        if ts.0 % GC_HINT_INTERVAL == 0 {
            let gc = self.oracle.gc_watermark();
            proof {
                lemma_gc_watermark(self@.clock, gc.0);
            }
            self.gc_hint = gc.0;
            self.states.purge(gc);
        }
        assert(self@ =~= a.refreshed());
        let ghost b = self@;
        assert(self.wf());
        if ts.0 % SWEEP_INTERVAL == 0 {
            self.sweep(((ts.0 / SWEEP_INTERVAL) % 64) as usize);
            proof {
                let c = b.swept();
                assert forall|t: int| 0 <= t < b.tables.len() implies self@.tables[t]
                    == #[trigger] c.tables[t] by {
                    assert(self@.tables[t] =~= c.tables[t]);
                }
                assert(self@.tables =~= c.tables);
                assert(self@ =~= c);
            }
        }
    }

    /// Prune one shard of every table, chosen by `round`, of what no running
    /// transaction can reach.
    ///
    /// Commits only ever prune the slots they write. This covers the records
    /// that nobody writes any more.
    fn sweep(&mut self, round: usize)
        requires
            old(self).wf(),
        ensures
            final(self).wf(),
            final(self)@ == (DbView {
                tables: old(self)@.tables.map_values(
                    |tv: TableView<T>| tv.swept(round as int, old(self)@.gc_hint),
                ),
                ..old(self)@
            }),
    {
        let hint = Timestamp(self.gc_hint);
        let ghost a = self@;
        let ghost before = *self;
        let mut t: usize = 0;
        while t < self.tables.len()
            invariant
                t <= self.tables@.len(),
                *self == (Database { tables: self.tables, ..before }),
                before.pieces_wf(),
                self.tables@.len() == before.tables@.len(),
                forall|u: int| 0 <= u < self.tables@.len() ==> (#[trigger] self.tables@[u]).wf(),
                forall|u: int|
                    0 <= u < t ==> (#[trigger] self.tables@[u])@ == before.tables@[u]@.swept(
                        round as int,
                        hint.0,
                    ),
                forall|u: int|
                    t <= u < self.tables@.len() ==> #[trigger] self.tables@[u]
                        == before.tables@[u],
            decreases self.tables@.len() - t,
        {
            assert(self.tables@[t as int] == before.tables@[t as int]);
            self.tables[t].sweep(round, hint);
            t = t + 1;
        }
        proof {
            let b = DbView {
                tables: a.tables.map_values(
                    |tv: TableView<T>| tv.swept(round as int, a.gc_hint),
                ),
                ..a
            };
            assert(self@.tables =~= b.tables);
            assert(self@ =~= b);
            assert forall|u: int|
                #![trigger b.tables[u]]
                0 <= u < b.tables.len() implies crate::keep::pruned_table(
                a.tables[u],
                b.tables[u],
                a.gc_hint,
            ) by {
                assert(a.tables[u].sound(a.clock.watermark));
            }
            crate::keep::lemma_pruned_inv(a, b, a.gc_hint);
            assert forall|x: u64| #[trigger] self.txns@.contains_key(x) implies linked(
                self@.tables,
                x,
                self.txns@[x],
            ) by {
                lemma_quiet_linked(a, b, x, self.txns@[x]);
            }
        }
    }

    /// Take `id`'s writes back.
    fn roll_back(&mut self, id: TxnId, local: TxnLocal<T>, Ghost(d): Ghost<DbView<T>>)
        requires
            old(self).detached(d, id.0, local),
        ensures
            final(self).wf(),
            final(self)@ == d.rolled_back(id.0),
    {
        proof {
            lemma_rolled_back_inv(d, id.0);
            assert(d.txn_ok(id.0));
            assert(d.txns[id.0] == local@);
        }
        let ghost base = d.tables;
        let ghost f = |slot: SlotView<T>| slot.aborted();
        let mut i: usize = 0;
        proof {
            assert forall|t: int| 0 <= t < base.len() implies (#[trigger] base[t]).in_order(
                d.clock.watermark,
            ) by {
                assert(base[t].sound(d.clock.watermark));
            }
            lemma_nothing_rewritten(base, f, d.clock.watermark);
            assert(local.writes@.take(0) =~= Seq::empty());
        }
        let ghost mid = *self;
        while i < local.writes.len()
            invariant
                i <= local.writes@.len(),
                base == d.tables,
                f == (|slot: SlotView<T>| slot.aborted()),
                id.0 != 0,
                *self == (Database { tables: self.tables, ..mid }),
                self.tables@.len() == base.len(),
                forall|t: int| 0 <= t < self.tables@.len() ==> (#[trigger] self.tables@[t]).wf(),
                linked(base, id.0, local),
                forall|t: int| 0 <= t < base.len() ==> (#[trigger] base[t]).in_order(
                    d.clock.watermark,
                ),
                views(self.tables@) == rewritten(base, local.writes@.take(i as int), f),
            decreases local.writes@.len() - i,
        {
            let t: usize = local.writes[i].0;
            let key = &local.writes[i].1;
            let ghost now = views(self.tables@);
            proof {
                assert(local.writes@[i as int].0 == t);
                assert(lists_write(local.writes@, t as int, key@));
                lemma_not_yet(local.writes@, i as int);
                assert(base[t as int].in_order(d.clock.watermark));
                assert(now[t as int] == self.tables@[t as int]@);
                assert(now[t as int].slots[key@] == base[t as int].slots[key@]);
                assert(base[t as int].slots[key@].ok_by(d.clock.watermark));
            }
            self.tables[t].abort_slot(key, id);
            proof {
                assert(views(self.tables@) =~= now.update(
                    t as int,
                    TableView {
                        slots: now[t as int].slots.insert(key@, f(now[t as int].slots[key@])),
                        ..now[t as int]
                    },
                ));
                lemma_rewritten_more(base, local.writes@, i as int, f, views(self.tables@));
            }
            i = i + 1;
        }
        let ghost restored = views(self.tables@);
        assert(local.writes@.take(i as int) =~= local.writes@);
        proof {
            assert forall|t: int| 0 <= t < base.len() implies #[trigger] restored[t].claims
                == base[t].claims by {}
            assert forall|t: int, p: int, ik: Seq<u8>| #[trigger]
                lists_claim(local.claims@, t, p, ik) <==> 0 <= t < restored.len() && 0 <= p
                    < restored[t].claims.len() && restored[t].holds_claim(p, ik, id.0) by {
                if 0 <= t < base.len() {
                    assert(restored[t].claims == base[t].claims);
                }
            }
        }
        release_claims(&mut self.tables, &local.claims, id, Ghost(restored));
        match self.states.get(id.0) {
            Some(state) => {
                if local.rules.validates_reads {
                    // Frees its read locks: the reads of an aborted transaction
                    // never constrained anyone.
                    let mut state = state;
                    state.mark_aborted();
                    self.states.put(state);
                }
            },
            None => {},
        }
        self.oracle.release_snapshot(id, local.snapshot);
        proof {
            let b = d.rolled_back(id.0);
            assert(self.oracle@ =~= b.clock);
            assert(self@.tables =~= b.tables) by {
                assert forall|t: int| 0 <= t < base.len() implies views(self.tables@)[t]
                    == #[trigger] b.tables[t] by {
                    let a = views(self.tables@)[t];
                    let c = b.tables[t];
                    assert forall|k: Seq<u8>| #[trigger] a.slots[k] == c.slots[k] by {
                        assert(lists_write(local.writes@, t, k) <==> base[t].slots[k].lock
                            == id.0);
                    }
                    assert(a.slots =~= c.slots);
                    assert(a =~= c);
                }
            }
            assert(self@.txns =~= b.txns);
            assert(self@.states =~= b.states);
            assert(self@ =~= b);
            assert forall|x: u64| #[trigger] self.txns@.contains_key(x) implies linked(
                b.tables,
                x,
                self.txns@[x],
            ) by {
                assert(d.txns.contains_key(x));
                assert(d.txn_ok(x));
                lemma_released_linked(base, b.tables, id.0, x, self.txns@[x]);
            }
        }
    }
}

impl<I: IsolationLevel> Transaction<I> {
    /// Commit.
    ///
    /// Consumes the transaction. One that fails has been rolled back.
    ///
    /// A transaction that wrote nothing never needs validating: it read a
    /// snapshot, which is the result of a prefix of the commits.
    pub fn commit<T: Versioned>(self, db: &mut Database<T>) -> (r: Result<()>)
        requires
            old(db).wf(),
            old(db)@.clock.next < FOREVER,
        ensures
            final(db).wf(),
            final(db)@ == old(db)@.after_commit(self.who()),
            match old(db)@.commit_error(self.who()) {
                Some(e) => r == Err::<(), Error>(e),
                None => r is Ok,
            },
    {
        let id = self.id();
        let ghost d = db@;
        let local = match db.txns.remove(&id.0) {
            Some(local) => local,
            None => {
                assert(db@ =~= d);
                assert(db.wf());
                return Err(Error::Aborted);
            },
        };
        proof {
            assert(db.txns@.map_values(|l: TxnLocal<T>| l@).insert(id.0, local@) =~= d.txns);
            assert(db.detached(d, id.0, local));
            if local.writes@.len() > 0 {
                let t = local.writes@[0].0 as int;
                let k = local.writes@[0].1@;
                assert(lists_write(local.writes@, t, k));
                let x = d.tables[t].slots[k];
                assert(d.tables[t].written_by(id.0));
            }
            if d.wrote(id.0) {
                let t = choose|t: int|
                    0 <= t < d.tables.len() && #[trigger] d.tables[t].written_by(id.0);
                let k = choose|k: Seq<u8>| (#[trigger] d.tables[t].slots[k]).lock == id.0;
                assert(lists_write(local.writes@, t, k));
            }
        }
        if local.rules.validates_reads && local.writes.len() > 0 {
            let ok: bool = db.detect_conflicts(id, &local, Ghost(d));
            let ghost e = d.detected(id.0).0;
            if !ok {
                db.roll_back(id, local, Ghost(e));
                return Err(Error::SerializationFailure);
            }
            proof {
                lemma_detected_inv(d, id.0);
            }
            db.finish(id, local, Ghost(e));
        } else {
            db.finish(id, local, Ghost(d));
        }
        Ok(())
    }

    /// Abort and discard every write.
    ///
    /// Infallible: a transaction that is no longer running has nothing to
    /// discard.
    pub fn abort<T: Versioned>(self, db: &mut Database<T>)
        requires
            old(db).wf(),
        ensures
            final(db).wf(),
            final(db)@ == old(db)@.after_abort(self.who()),
    {
        let id = self.id();
        let ghost d = db@;
        match db.txns.remove(&id.0) {
            Some(local) => {
                proof {
                    assert(db.txns@.map_values(|l: TxnLocal<T>| l@).insert(id.0, local@)
                        =~= d.txns);
                    assert(db.detached(d, id.0, local));
                }
                db.roll_back(id, local, Ghost(d));
            },
            None => {
                assert(db@ =~= d);
                assert(db.wf());
            },
        }
    }
}

} // verus!
