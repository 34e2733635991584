//! What the statements of a transaction promise, in terms of what goes into a call
//! and what comes out.
//!
//! Here a record is its versions and who is writing it, and nothing else: what a
//! transaction is shown is told by when those versions began and ended.

use vstd::prelude::*;

use crate::chain::lemma_read_own;
use crate::database::transaction::{Ref, Transaction};
use crate::database::Database;
use crate::error::Result;
use crate::filter::{Bound, Filter};
use crate::isolation::IsolationLevel;
use crate::order::lex_lt;
use crate::schema::{Encodable, Index, IndexKey, TableRef};
use crate::slot::{lemma_newest_index, lemma_settled, newest_index, visible, SlotView, Version};
use crate::state::{DbView, ScopeView};
use crate::time::{IN_FLIGHT, NOBODY};
use crate::versioned::Versioned;

verus! {

// --- vocabulary -----------------------------------------------------------------

/// `tx` is running, and `table` is one of the tables.
pub open spec fn ready<T: Versioned, I: IsolationLevel>(
    tx: Transaction<I>,
    db: Database<T>,
    table: TableRef,
) -> bool {
    &&& db.wf()
    &&& db@.txns.contains_key(tx.who())
    &&& table.id.0 < db@.tables.len()
    &&& db@.tables[table.id.0 as int].of == table.of
}

/// The time as of which a statement of `id` reads.
pub open spec fn as_of<T: Versioned>(db: DbView<T>, id: u64) -> u64 {
    if db.txns[id].rules.refresh_snapshot_per_statement {
        db.clock.watermark
    } else {
        db.txns[id].snapshot
    }
}

/// The record that a version holds, or `None` if it stands for a delete.
pub open spec fn held<T>(v: Version<T>) -> Option<T> {
    match v.value {
        Some(x) => Some(*x),
        None => None,
    }
}

/// Whether `v` had begun and had not ended at `s`.
pub open spec fn lasts<T>(v: Version<T>, s: u64) -> bool {
    v.begin <= s < v.end
}

/// `found` is what `id` is shown of a record as of `s`: what it wrote last, if it
/// is writing the record; otherwise what the version of that time holds, and
/// nothing if there was none.
pub open spec fn shown<T>(slot: SlotView<T>, s: u64, id: u64, found: Option<T>) -> bool {
    if slot.lock == id && id != 0 {
        slot.chain.len() > 0 && found == held(slot.chain[slot.chain.len() - 1])
    } else {
        &&& forall|i: int|
            0 <= i < slot.chain.len() && lasts(#[trigger] slot.chain[i], s) ==> found == held(
                slot.chain[i],
            )
        &&& found is Some ==> exists|i: int|
            0 <= i < slot.chain.len() && lasts(#[trigger] slot.chain[i], s)
    }
}

/// Whether `key` is at or past the lower end of a range.
pub open spec fn from(lo: Bound<IndexKey>, key: Seq<u8>) -> bool {
    match lo {
        Bound::Unbounded => true,
        Bound::Included(b) => !lex_lt(key, b@),
        Bound::Excluded(b) => !lex_lt(key, b@) && key != b@,
    }
}

/// Whether `key` is at or before the upper end of a range.
pub open spec fn up_to(hi: Bound<IndexKey>, key: Seq<u8>) -> bool {
    match hi {
        Bound::Unbounded => true,
        Bound::Included(b) => !lex_lt(b@, key),
        Bound::Excluded(b) => !lex_lt(b@, key) && key != b@,
    }
}

/// Whether a scan for `filter` is for records such as `x`.
pub open spec fn meets<T: Versioned>(filter: Filter<T::Predicate>, x: T) -> bool {
    match filter {
        Filter::All => true,
        Filter::Where(p) => x.spec_satisfies(&p),
        Filter::Range { position, lo, hi } => from(lo, x.spec_index_key(position as int))
            && up_to(hi, x.spec_index_key(position as int)),
    }
}

/// Filters let through what they are for.
pub proof fn law_filters_let_through_what_meets_them<T: Versioned>(
    filter: Filter<T::Predicate>,
    x: T,
)
    ensures
        crate::filter::passes(filter, x) <==> meets(filter, x),
        forall|r: bool| #[trigger]
            call_ensures(crate::filter::check_filter::<T>, (&filter, &x), r) ==> r == meets(
                filter,
                x,
            ),
{
    if let Filter::Range { position, lo, hi } = filter {
        let key = x.spec_index_key(position as int);
        lemma_ends(lo, hi, key);
    }
}

proof fn lemma_ends(lo: Bound<IndexKey>, hi: Bound<IndexKey>, key: Seq<u8>)
    ensures
        crate::filter::above(lo, key) <==> from(lo, key),
        crate::filter::below(hi, key) <==> up_to(hi, key),
{
    match lo {
        Bound::Included(b) | Bound::Excluded(b) => {
            crate::order::lemma_lex_total(key, b@);
            crate::order::lemma_lex_irreflexive(key);
            if lex_lt(b@, key) {
                crate::order::lemma_lex_asymmetric(b@, key);
            }
        },
        Bound::Unbounded => {},
    }
    match hi {
        Bound::Included(b) | Bound::Excluded(b) => {
            crate::order::lemma_lex_total(key, b@);
            crate::order::lemma_lex_irreflexive(key);
            if lex_lt(key, b@) {
                crate::order::lemma_lex_asymmetric(key, b@);
            }
        },
        Bound::Unbounded => {},
    }
}

// --- what is recorded ----------------------------------------------------------

/// Whether a read of `scope`, as of `s`, has come upon the version `v` under `k`.
pub open spec fn comes_across<T: Versioned>(
    scope: ScopeView<T>,
    k: Seq<u8>,
    v: Version<T>,
    s: u64,
) -> bool {
    lasts(v, s) && match scope {
        ScopeView::Row(j) => j == k,
        ScopeView::Rows(filter) => match held(v) {
            Some(x) => meets(*filter, x),
            None => false,
        },
    }
}

/// `observed` has the time at which each version began that a read of `scope`, as
/// of `s`, came upon, and no other.
pub open spec fn observed_rightly<T: Versioned>(
    slots: Map<Seq<u8>, SlotView<T>>,
    scope: ScopeView<T>,
    s: u64,
    observed: Map<Seq<u8>, u64>,
) -> bool {
    &&& forall|k: Seq<u8>, i: int|
        #![trigger slots[k].chain[i]]
        0 <= i < slots[k].chain.len() && comes_across(scope, k, slots[k].chain[i], s)
            ==> observed.contains_key(k) && observed[k] == slots[k].chain[i].begin
    &&& forall|k: Seq<u8>| #[trigger]
        observed.contains_key(k) ==> exists|i: int|
            0 <= i < slots[k].chain.len() && #[trigger] comes_across(
                scope,
                k,
                slots[k].chain[i],
                s,
            )
}

/// From `a` to `b` nothing has happened but that `id` has read `scope` of table
/// `t`. Where its reads are validated that is on record with `id`, for what it
/// found, and with what it read, for whoever writes it.
pub open spec fn only_read<T: Versioned>(
    a: DbView<T>,
    b: DbView<T>,
    id: u64,
    t: int,
    scope: ScopeView<T>,
) -> bool {
    if !a.txns[id].rules.validates_reads {
        b == a
    } else {
        let x = a.tables[t];
        let y = b.tables[t];
        let n = a.txns[id].reads.len() as int;
        let reads = b.txns[id].reads;
        &&& b.clock == a.clock && b.states == a.states && b.gc_hint == a.gc_hint
        &&& b.txns.dom() == a.txns.dom()
        &&& forall|r: u64| #[trigger] a.txns.contains_key(r) && r != id ==> b.txns[r] == a.txns[r]
        &&& b.txns[id].snapshot == a.txns[id].snapshot && b.txns[id].rules == a.txns[id].rules
        &&& reads.len() == n + 1
        &&& forall|i: int| 0 <= i < n ==> #[trigger] reads[i] == a.txns[id].reads[i]
        &&& reads[n].table == t && reads[n].scope == scope
        &&& observed_rightly(x.slots, scope, as_of(a, id), reads[n].observed)
        &&& b.tables.len() == a.tables.len()
        &&& forall|u: int|
            0 <= u < a.tables.len() && u != t ==> #[trigger] b.tables[u] == a.tables[u]
        &&& y.of == x.of && y.name == x.name && y.indexes == x.indexes && y.claims == x.claims
        &&& forall|k: Seq<u8>| #[trigger]
            y.slots[k].chain == x.slots[k].chain && y.slots[k].lock == x.slots[k].lock
        &&& match scope {
            ScopeView::Row(k) => {
                &&& y.locks == x.locks
                &&& y.kept == x.kept.insert(k)
                &&& forall|j: Seq<u8>, r: u64| #[trigger]
                    y.slots[j].readers.contains(r) <==> x.slots[j].readers.contains(r) || (j == k
                        && r == id)
            },
            ScopeView::Rows(filter) => {
                &&& y.locks.len() == x.locks.len() + 1
                &&& y.kept == x.kept
                &&& forall|i: int| 0 <= i < x.locks.len() ==> #[trigger] y.locks[i] == x.locks[i]
                &&& y.locks[x.locks.len() as int] == (id, filter)
                &&& forall|j: Seq<u8>| #[trigger] y.slots[j].readers == x.slots[j].readers
            },
        }
    }
}

pub proof fn lemma_shown<T: Versioned>(db: DbView<T>, id: u64, t: int, k: Seq<u8>)
    requires
        db.inv(),
        db.txns.contains_key(id),
        0 <= t < db.tables.len(),
    ensures
        shown(db.tables[t].slots[k], as_of(db, id), id, db.record_at(id, t, k)),
{
    let slot = db.tables[t].slots[k];
    let s = as_of(db, id);
    assert(db.txn_ok(id));
    assert(db.tables[t].sound(db.clock.watermark));
    assert(slot.ok_by(db.clock.watermark));
    lemma_lasting(slot, s, id, db.clock.watermark);
}

/// The version that a reader sees is the one that lasts.
pub proof fn lemma_lasting<T>(slot: SlotView<T>, s: u64, id: u64, now: u64)
    requires
        slot.ok_by(now),
        s <= now < IN_FLIGHT - 1,
        id < IN_FLIGHT,
    ensures
        shown(slot, s, id, crate::slot::live_value(crate::slot::read_at(slot.chain, s, id))),
        slot.lock != id || id == 0 ==> match crate::slot::read_at(slot.chain, s, id) {
            Some(v) => lasts(v, s) && exists|i: int|
                0 <= i < slot.chain.len() && #[trigger] slot.chain[i] == v,
            None => forall|i: int|
                0 <= i < slot.chain.len() ==> !lasts(#[trigger] slot.chain[i], s),
        },
        slot.lock != id || id == 0 ==> forall|i: int|
            0 <= i < slot.chain.len() && lasts(#[trigger] slot.chain[i], s)
                ==> crate::slot::read_at(slot.chain, s, id) == Some(slot.chain[i]),
{
    let p = |v: Version<T>| visible(v, s, id);
    lemma_newest_index(slot.chain, p);
    let j = newest_index(slot.chain, p);
    lemma_settled(slot.chain);
    if slot.lock == id && id != 0 {
        lemma_read_own(slot, s, id);
    } else {
        assert forall|i: int| 0 <= i < slot.chain.len() implies p(#[trigger] slot.chain[i])
            == lasts(slot.chain[i], s) by {
            let v = slot.chain[i];
        }
        assert forall|i: int| 0 <= i < slot.chain.len() && lasts(#[trigger] slot.chain[i], s)
            implies i == j by {
            assert(p(slot.chain[i]));
            if i < j {
                assert(slot.chain[i].end <= slot.chain[j].begin);
                assert(p(slot.chain[j]));
            }
        }
        if j >= 0 {
            assert(p(slot.chain[j]));
        }
    }
}

/// What a read finds at a time, if nobody's own writes count.
pub proof fn lemma_observed_at<T: Versioned>(db: DbView<T>, t: int, scope: ScopeView<T>, s: u64)
    requires
        db.inv(),
        0 <= t < db.tables.len(),
        s <= db.clock.watermark,
    ensures
        observed_rightly(
            db.tables[t].slots,
            scope,
            s,
            crate::state::seen(db.tables[t].slots, scope, s),
        ),
{
    let slots = db.tables[t].slots;
    let observed = crate::state::seen(slots, scope, s);
    assert(db.tables[t].sound(db.clock.watermark));
    assert forall|k: Seq<u8>, i: int|
        #![trigger slots[k].chain[i]]
        0 <= i < slots[k].chain.len() && comes_across(scope, k, slots[k].chain[i], s) implies
        observed.contains_key(k) && observed[k] == slots[k].chain[i].begin by {
        assert(slots[k].ok_by(db.clock.watermark));
        lemma_lasting(slots[k], s, NOBODY, db.clock.watermark);
        if let ScopeView::Rows(filter) = scope {
            law_filters_let_through_what_meets_them(*filter, held(slots[k].chain[i])->Some_0);
            assert(crate::table::hit(slots[k], s, NOBODY, *filter));
        }
    }
    assert forall|k: Seq<u8>| #[trigger] observed.contains_key(k) implies exists|i: int|
        0 <= i < slots[k].chain.len() && #[trigger] comes_across(
            scope,
            k,
            slots[k].chain[i],
            s,
        ) by {
        assert(slots[k].ok_by(db.clock.watermark));
        lemma_lasting(slots[k], s, NOBODY, db.clock.watermark);
        if let ScopeView::Rows(filter) = scope {
            assert(crate::table::hit(slots[k], s, NOBODY, *filter));
            let v = crate::slot::read_at(slots[k].chain, s, NOBODY)->Some_0;
            law_filters_let_through_what_meets_them(*filter, held(v)->Some_0);
        }
        let v = crate::slot::read_at(slots[k].chain, s, NOBODY)->Some_0;
        let i = choose|i: int| 0 <= i < slots[k].chain.len() && #[trigger] slots[k].chain[i] == v;
        assert(comes_across(scope, k, slots[k].chain[i], s));
    }
}

/// Reading is on record as it has to be.
pub proof fn lemma_only_read<T: Versioned>(db: DbView<T>, id: u64, t: int, scope: ScopeView<T>)
    requires
        db.inv(),
        db.txns.contains_key(id),
        0 <= t < db.tables.len(),
    ensures
        only_read(db, db.after_read(id, t, scope), id, t, scope),
{
    assert(db.txn_ok(id));
    lemma_observed_at(db, t, scope, as_of(db, id));
    let b = db.after_read(id, t, scope);
    if db.txns[id].rules.validates_reads {
        assert(db.tables[t].sound(db.clock.watermark));
        assert(b.txns.dom() =~= db.txns.dom());
        assert forall|k: Seq<u8>| #[trigger]
            b.tables[t].slots[k].chain == db.tables[t].slots[k].chain && b.tables[t].slots[k].lock
                == db.tables[t].slots[k].lock by {
            assert(db.tables[t].slots.contains_key(k));
        }
        assert forall|j: Seq<u8>, r: u64| scope is Row implies (#[trigger]
            b.tables[t].slots[j].readers.contains(r) <==> db.tables[t].slots[j].readers.contains(r)
                || (j == scope->Row_0 && r == id)) by {
            assert(db.tables[t].slots.contains_key(j));
        }
    }
}

// --- reading ---------------------------------------------------------------------

/// What `get` does: it returns what the transaction is shown of the record, and
/// that is all that happens.
pub open spec fn got<T: Versioned, I: IsolationLevel>(
    tx: Transaction<I>,
    a: Database<T>,
    table: TableRef,
    key: T::Key,
    r: Result<Option<Ref<T>>>,
    b: Database<T>,
) -> bool {
    let t = table.id.0 as int;
    let k = key.encoded();
    &&& b.wf()
    &&& only_read(a@, b@, tx.who(), t, ScopeView::Row(k))
    &&& match r {
        Ok(found) => shown(
            a@.tables[t].slots[k],
            as_of(a@, tx.who()),
            tx.who(),
            match found {
                Some(x) => Some(x@),
                None => None,
            },
        ),
        Err(_) => false,
    }
}

/// A read by key returns what the transaction itself wrote last, and otherwise the
/// version of its snapshot; a serializable one has that on record.
pub proof fn law_reads_show_the_snapshot<T: Versioned, I: IsolationLevel>(
    tx: Transaction<I>,
    table: TableRef,
    key: T::Key,
)
    ensures
        forall|db: &mut Database<T>, r: Result<Option<Ref<T>>>| #[trigger]
            call_ensures(Transaction::<I>::get::<T>, (&tx, db, table, &key), r) && ready(
                tx,
                *db,
                table,
            ) ==> got(tx, *db, table, key, r, *final(db)),
{
    assert forall|db: &mut Database<T>, r: Result<Option<Ref<T>>>| #[trigger]
        call_ensures(Transaction::<I>::get::<T>, (&tx, db, table, &key), r) && ready(
            tx,
            *db,
            table,
        ) implies got(tx, *db, table, key, r, *final(db)) by {
        db.lemma_wf();
        let t = table.id.0 as int;
        lemma_shown(db@, tx.who(), t, key.encoded());
        lemma_only_read(db@, tx.who(), t, ScopeView::Row(key.encoded()));
    }
}

/// What a scan for `filter` returns: exactly the records that the transaction is
/// shown and that it is for, each under its own key.
pub open spec fn scanned_rightly<T: Versioned>(
    a: DbView<T>,
    id: u64,
    t: int,
    filter: Filter<T::Predicate>,
    records: Seq<Ref<T>>,
) -> bool {
    &&& forall|i: int|
        0 <= i < records.len() ==> shown(
            a.tables[t].slots[(#[trigger] records[i])@.spec_key()],
            as_of(a, id),
            id,
            Some(records[i]@),
        ) && meets(filter, records[i]@)
    &&& forall|k: Seq<u8>, x: T| #[trigger]
        shown(a.tables[t].slots[k], as_of(a, id), id, Some(x)) && meets(filter, x) ==> exists|
            i: int,
        |
            0 <= i < records.len() && (#[trigger] records[i])@ == x && x.spec_key() == k
}

/// One record comes before another by their keys.
pub open spec fn by_key<T: Versioned>(records: Seq<Ref<T>>) -> bool {
    forall|i: int, j: int|
        0 <= i < j < records.len() ==> lex_lt(
            (#[trigger] records[i])@.spec_key(),
            (#[trigger] records[j])@.spec_key(),
        )
}

/// One record comes before another by their keys in an index, or where these are
/// the same by their own.
pub open spec fn by_index<T: Versioned>(records: Seq<Ref<T>>, position: int) -> bool {
    forall|i: int, j: int|
        0 <= i < j < records.len() ==> {
            let x = (#[trigger] records[i])@;
            let y = (#[trigger] records[j])@;
            let u = x.spec_index_key(position);
            let v = y.spec_index_key(position);
            lex_lt(u, v) || (u == v && lex_lt(x.spec_key(), y.spec_key()))
        }
}

proof fn lemma_scanned<T: Versioned>(
    db: DbView<T>,
    id: u64,
    t: int,
    filter: Filter<T::Predicate>,
    records: Seq<Ref<T>>,
)
    requires
        db.inv(),
        db.txns.contains_key(id),
        0 <= t < db.tables.len(),
        crate::database::transaction::records_of(records, db.rows_at(id, t, filter)),
    ensures
        scanned_rightly(db, id, t, filter, records),
{
    let s = as_of(db, id);
    let rows = db.rows_at(id, t, filter);
    let slots = db.tables[t].slots;
    assert(db.tables[t].sound(db.clock.watermark));
    assert forall|i: int| 0 <= i < records.len() implies shown(
        slots[(#[trigger] records[i])@.spec_key()],
        s,
        id,
        Some(records[i]@),
    ) && meets(filter, records[i]@) by {
        let k = records[i]@.spec_key();
        lemma_shown(db, id, t, k);
        assert(rows.contains_key(k));
        assert(crate::table::hit(slots[k], s, id, filter));
        law_filters_let_through_what_meets_them(filter, records[i]@);
    }
    assert forall|k: Seq<u8>, x: T| #[trigger]
        shown(slots[k], s, id, Some(x)) && meets(filter, x) implies exists|i: int|
        0 <= i < records.len() && (#[trigger] records[i])@ == x && x.spec_key() == k by {
        lemma_shown(db, id, t, k);
        lemma_one_shown(slots[k], s, id, Some(x), db.record_at(id, t, k));
        law_filters_let_through_what_meets_them(filter, x);
        assert(crate::table::hit(slots[k], s, id, filter));
        assert(rows.contains_key(k));
        let i = choose|i: int| 0 <= i < records.len() && (#[trigger] records[i])@.spec_key() == k;
        assert(records[i]@ == x);
    }
}

/// Only one thing is shown.
pub proof fn lemma_one_shown<T>(
    slot: SlotView<T>,
    s: u64,
    id: u64,
    x: Option<T>,
    y: Option<T>,
)
    requires
        shown(slot, s, id, x),
        shown(slot, s, id, y),
    ensures
        x == y,
{
}

/// A scan returns every record that the transaction is shown, and no other, in the
/// order of their keys.
pub proof fn law_scans_return_what_is_shown<T: Versioned, I: IsolationLevel>(
    tx: Transaction<I>,
    table: TableRef,
)
    ensures
        forall|db: &mut Database<T>, r: Result<Vec<Ref<T>>>| #[trigger]
            call_ensures(Transaction::<I>::scan::<T>, (&tx, db, table), r) && ready(tx, *db, table)
                ==> r is Ok && by_key(r->Ok_0@) && scanned_rightly(
                db@,
                tx.who(),
                table.id.0 as int,
                Filter::All,
                r->Ok_0@,
            ) && only_read(
                db@,
                final(db)@,
                tx.who(),
                table.id.0 as int,
                ScopeView::Rows(std::sync::Arc::new(Filter::All)),
            ),
{
    assert forall|db: &mut Database<T>, r: Result<Vec<Ref<T>>>| #[trigger]
        call_ensures(Transaction::<I>::scan::<T>, (&tx, db, table), r) && ready(tx, *db, table)
        implies r is Ok && by_key(r->Ok_0@) && scanned_rightly(
        db@,
        tx.who(),
        table.id.0 as int,
        Filter::All,
        r->Ok_0@,
    ) && only_read(
        db@,
        final(db)@,
        tx.who(),
        table.id.0 as int,
        ScopeView::Rows(std::sync::Arc::new(Filter::All)),
    ) by {
        db.lemma_wf();
        let t = table.id.0 as int;
        lemma_scanned(db@, tx.who(), t, Filter::All, r->Ok_0@);
        lemma_only_read(db@, tx.who(), t, ScopeView::Rows(std::sync::Arc::new(Filter::All)));
    }
}

/// A scan for a predicate returns every record that the transaction is shown and
/// that satisfies it, and no other, in the order of their keys.
pub proof fn law_scans_return_what_satisfies_the_predicate<T: Versioned, I: IsolationLevel>(
    tx: Transaction<I>,
    table: TableRef,
    predicate: T::Predicate,
)
    ensures
        forall|db: &mut Database<T>, r: Result<Vec<Ref<T>>>| #[trigger]
            call_ensures(Transaction::<I>::scan_where::<T>, (&tx, db, table, predicate), r)
                && ready(tx, *db, table) ==> r is Ok && by_key(r->Ok_0@) && scanned_rightly(
                db@,
                tx.who(),
                table.id.0 as int,
                Filter::Where(predicate),
                r->Ok_0@,
            ) && only_read(
                db@,
                final(db)@,
                tx.who(),
                table.id.0 as int,
                ScopeView::Rows(std::sync::Arc::new(Filter::Where(predicate))),
            ),
{
    assert forall|db: &mut Database<T>, r: Result<Vec<Ref<T>>>| #[trigger]
        call_ensures(Transaction::<I>::scan_where::<T>, (&tx, db, table, predicate), r) && ready(
            tx,
            *db,
            table,
        ) implies r is Ok && by_key(r->Ok_0@) && scanned_rightly(
        db@,
        tx.who(),
        table.id.0 as int,
        Filter::Where(predicate),
        r->Ok_0@,
    ) && only_read(
        db@,
        final(db)@,
        tx.who(),
        table.id.0 as int,
        ScopeView::Rows(std::sync::Arc::new(Filter::Where(predicate))),
    ) by {
        db.lemma_wf();
        let t = table.id.0 as int;
        lemma_scanned(db@, tx.who(), t, Filter::Where(predicate), r->Ok_0@);
        lemma_only_read(
            db@,
            tx.who(),
            t,
            ScopeView::Rows(std::sync::Arc::new(Filter::Where(predicate))),
        );
    }
}

/// Whether `filter` is for a key of `index` between `lo` and `hi`, as these compare
/// when encoded.
pub open spec fn for_range<T: Versioned, K: Encodable>(
    filter: Filter<T::Predicate>,
    index: Index<T, K>,
    lo: Bound<K>,
    hi: Bound<K>,
) -> bool {
    match filter {
        Filter::Range { position, lo: a, hi: b } => {
            &&& position == index.position
            &&& match lo {
                Bound::Included(k) => a matches Bound::Included(e) && e@ == k.encoded(),
                Bound::Excluded(k) => a matches Bound::Excluded(e) && e@ == k.encoded(),
                Bound::Unbounded => a is Unbounded,
            }
            &&& match hi {
                Bound::Included(k) => b matches Bound::Included(e) && e@ == k.encoded(),
                Bound::Excluded(k) => b matches Bound::Excluded(e) && e@ == k.encoded(),
                Bound::Unbounded => b is Unbounded,
            }
        },
        _ => false,
    }
}

/// What an index scan does: it returns every record that the transaction is shown
/// and whose key in the index lies in the range, and no other, in index order; and
/// it is on record for just that range.
pub open spec fn scanned_index<T: Versioned, K: Encodable>(
    a: DbView<T>,
    b: DbView<T>,
    id: u64,
    t: int,
    index: Index<T, K>,
    lo: Bound<K>,
    hi: Bound<K>,
    r: Result<Vec<Ref<T>>>,
) -> bool {
    r is Ok && by_index(r->Ok_0@, index.position as int) && exists|
        filter: std::sync::Arc<Filter<T::Predicate>>,
    | #[trigger]
        for_range(*filter, index, lo, hi) && scanned_rightly(a, id, t, *filter, r->Ok_0@)
            && only_read(a, b, id, t, ScopeView::Rows(filter))
}

/// An index scan returns the records of a range of keys, in their order.
pub proof fn law_index_scans_return_the_range<T: Versioned, I: IsolationLevel, K: Encodable>(
    tx: Transaction<I>,
    table: TableRef,
    index: Index<T, K>,
    lo: Bound<K>,
    hi: Bound<K>,
)
    ensures
        forall|db: &mut Database<T>, r: Result<Vec<Ref<T>>>| #[trigger]
            call_ensures(
                Transaction::<I>::scan_index::<T, K>,
                (&tx, db, table, index, lo, hi),
                r,
            ) && ready(tx, *db, table) ==> scanned_index(
                db@,
                final(db)@,
                tx.who(),
                table.id.0 as int,
                index,
                lo,
                hi,
                r,
            ),
{
    assert forall|db: &mut Database<T>, r: Result<Vec<Ref<T>>>| #[trigger]
        call_ensures(
            Transaction::<I>::scan_index::<T, K>,
            (&tx, db, table, index, lo, hi),
            r,
        ) && ready(tx, *db, table) implies scanned_index(
        db@,
        final(db)@,
        tx.who(),
        table.id.0 as int,
        index,
        lo,
        hi,
        r,
    ) by {
        db.lemma_wf();
        let t = table.id.0 as int;
        let id = tx.who();
        let filter = choose|filter: std::sync::Arc<Filter<T::Predicate>>| #[trigger]
            crate::database::transaction::asks_for(*filter, index, lo, hi) && final(db)@
                == db@.after_read(id, t, ScopeView::Rows(filter)) && match r {
                Ok(records) => crate::database::transaction::in_key_order_of(
                    records@,
                    index.position as int,
                ) && crate::database::transaction::records_of(
                    records@,
                    db@.rows_at(id, t, *filter),
                ),
                Err(_) => false,
            };
        lemma_scanned(db@, id, t, *filter, r->Ok_0@);
        lemma_only_read(db@, id, t, ScopeView::Rows(filter));
        assert(for_range(*filter, index, lo, hi));
    }
}

/// The ends of a range admit what lies on the right side of them.
pub proof fn law_ends_admit_what_lies_inside(end: Bound<IndexKey>, key: IndexKey)
    ensures
        forall|r: bool| #[trigger]
            call_ensures(Bound::<IndexKey>::admits_from, (&end, &key), r) ==> r == from(end, key@),
        forall|r: bool| #[trigger]
            call_ensures(Bound::<IndexKey>::admits_to, (&end, &key), r) ==> r == up_to(end, key@),
{
    lemma_ends(end, end, key@);
}

} // verus!
