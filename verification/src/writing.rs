//! What the statements that write promise: when they succeed, why they fail, and
//! what they leave behind.

use vstd::prelude::*;

use crate::chain::lemma_current;
use crate::database::transaction::Transaction;
use crate::database::Database;
use crate::error::{Error, Result};
use crate::isolation::IsolationLevel;
use crate::promises::{
    as_of, held, lemma_one_shown, lemma_only_read, lemma_shown, only_read, ready, shown,
};
use crate::schema::{Encodable, TableRef};
use crate::slot::{lemma_settled, settled, SlotView, Version};
use crate::state::{DbView, ScopeView};
use crate::table::{holds_index_key, taken, TableView};
use crate::time::{TxnId, FOREVER, IN_FLIGHT};
use crate::versioned::Versioned;

verus! {

// --- vocabulary -----------------------------------------------------------------

/// Whether `v` is what is committed now.
pub open spec fn lasts_still<T>(v: Version<T>) -> bool {
    v.begin < IN_FLIGHT && v.end == FOREVER
}

/// `found` is what there is of a record now, whatever the snapshot: what `id`
/// wrote last, if it is writing the record, and otherwise what is committed.
pub open spec fn stands<T>(slot: SlotView<T>, id: u64, found: Option<T>) -> bool {
    if slot.lock == id {
        slot.chain.len() > 0 && found == held(slot.chain[slot.chain.len() - 1])
    } else {
        &&& forall|i: int|
            0 <= i < slot.chain.len() && lasts_still(#[trigger] slot.chain[i]) ==> found == held(
                slot.chain[i],
            )
        &&& found is Some ==> exists|i: int|
            0 <= i < slot.chain.len() && lasts_still(#[trigger] slot.chain[i])
    }
}

/// Whether somebody else is in the way of `id` writing a record: another
/// transaction is writing it, or nobody is and the first committer wins and one
/// has committed it after the snapshot.
pub open spec fn in_the_way<T: Versioned>(db: DbView<T>, id: u64, slot: SlotView<T>) -> bool {
    ||| slot.lock != 0 && slot.lock != id
    ||| slot.lock == 0 && db.txns[id].rules.first_committer_wins && exists|i: int|
        0 <= i < slot.chain.len() && db.txns[id].snapshot < (#[trigger] slot.chain[i]).begin
}

/// Whether another running transaction has claimed this key of the index at `p`.
pub open spec fn claimed_by_another<T: Versioned>(
    tv: TableView<T>,
    id: u64,
    p: int,
    ik: Seq<u8>,
) -> bool {
    tv.claims[p].contains_key(ik) && tv.claims[p][ik] != id
}

/// Whether the record under `j` has this key in the index at `p`.
pub open spec fn has_there<T: Versioned>(
    tv: TableView<T>,
    id: u64,
    p: int,
    ik: Seq<u8>,
    j: Seq<u8>,
) -> bool {
    exists|x: T| #[trigger] stands(tv.slots[j], id, Some(x)) && x.spec_index_key(p) == ik
}

/// Whether a record other than that under `k` has this key in the index at `p`.
pub open spec fn held_by_another<T: Versioned>(
    tv: TableView<T>,
    id: u64,
    p: int,
    ik: Seq<u8>,
    k: Seq<u8>,
) -> bool {
    exists|j: Seq<u8>| j != k && #[trigger] has_there(tv, id, p, ik, j)
}

/// Whether the unique index at `p` keeps `id` from writing `x` under `k`.
pub open spec fn barred<T: Versioned>(tv: TableView<T>, id: u64, k: Seq<u8>, x: T, p: int) -> bool {
    0 <= p < tv.indexes.len() && tv.indexes[p].unique && (claimed_by_another(
        tv,
        id,
        p,
        x.spec_index_key(p),
    ) || held_by_another(tv, id, p, x.spec_index_key(p), k))
}

/// Why `id` may not write `value` under `k`: `None` exactly if nobody is in the
/// way and no unique index bars it. The first index that does decides, and it does
/// so before who is in the way.
pub open spec fn stopped_by<T: Versioned>(
    db: DbView<T>,
    id: u64,
    t: int,
    k: Seq<u8>,
    value: Option<T>,
    e: Option<Error>,
) -> bool {
    let tv = db.tables[t];
    if value matches Some(x) && exists|p: int| barred(tv, id, k, x, p) {
        exists|p: int|
            #![trigger tv.indexes[p]]
            barred(tv, id, k, value->Some_0, p) && (forall|q: int|
                0 <= q < p ==> !barred(tv, id, k, value->Some_0, q)) && e == Some(
                if claimed_by_another(tv, id, p, value->Some_0.spec_index_key(p)) {
                    Error::WriteConflict { table: tv.name }
                } else {
                    Error::DuplicateKey { table: tv.name, index: tv.indexes[p].name }
                },
            )
    } else if in_the_way(db, id, tv.slots[k]) {
        e == Some(Error::WriteConflict { table: tv.name })
    } else {
        e is None
    }
}

/// From `a` to `b` nothing has happened but that `id` has put a version on top of
/// the record under `k`, in flight, and has claimed its unique index keys.
pub open spec fn only_wrote<T: Versioned>(
    a: DbView<T>,
    b: DbView<T>,
    id: u64,
    t: int,
    k: Seq<u8>,
    value: Option<T>,
) -> bool {
    let x = a.tables[t];
    let y = b.tables[t];
    let n = x.slots[k].chain.len() as int;
    let chain = y.slots[k].chain;
    &&& b.clock == a.clock && b.txns == a.txns && b.states == a.states && b.gc_hint == a.gc_hint
    &&& b.tables.len() == a.tables.len()
    &&& forall|u: int| 0 <= u < a.tables.len() && u != t ==> #[trigger] b.tables[u] == a.tables[u]
    &&& y.of == x.of && y.name == x.name && y.indexes == x.indexes && y.locks == x.locks
    &&& forall|j: Seq<u8>| j != k ==> #[trigger] y.slots[j] == x.slots[j]
    &&& y.slots[k].lock == id
    &&& y.slots[k].readers == x.slots[k].readers
    &&& y.kept == x.kept.insert(k)
    &&& chain.len() == n + 1
    &&& forall|i: int| 0 <= i < n ==> #[trigger] chain[i] == x.slots[k].chain[i]
    &&& chain[n].begin == IN_FLIGHT + id
    &&& chain[n].end == FOREVER
    &&& held(chain[n]) == value
    &&& chain[n].writer == if a.txns[id].rules.validates_reads {
        Some(TxnId(id))
    } else {
        None
    }
    &&& y.claims.len() == x.claims.len()
    &&& forall|p: int, ik: Seq<u8>, r: u64|
        0 <= p < x.claims.len() ==> (#[trigger] y.holds_claim(p, ik, r) <==> if x.indexes[p].unique
            && value is Some && ik == value->Some_0.spec_index_key(p) {
            r == id
        } else {
            x.holds_claim(p, ik, r)
        })
}

// --- what stands there -----------------------------------------------------------

proof fn lemma_stands<T>(slot: SlotView<T>, id: u64)
    requires
        slot.ok(),
        id != 0,
    ensures
        stands(slot, id, crate::slot::live_value(crate::slot::current(slot.chain, id))),
{
    lemma_current(slot, id);
    lemma_settled(slot.chain);
    let n = settled(slot.chain) as int;
    if slot.lock != id {
        assert forall|i: int| 0 <= i < slot.chain.len() && lasts_still(
            #[trigger] slot.chain[i],
        ) implies i == n - 1 by {
            if i < n - 1 {
                assert(slot.chain[i].end == slot.chain[i + 1].begin);
                assert(slot.chain[i + 1].begin < FOREVER);
            }
        }
        if n > 0 {
            assert(lasts_still(slot.chain[n - 1]));
        }
    }
}

proof fn lemma_one_stands<T>(slot: SlotView<T>, id: u64, x: Option<T>, y: Option<T>)
    requires
        stands(slot, id, x),
        stands(slot, id, y),
    ensures
        x == y,
{
}

proof fn lemma_held<T: Versioned>(
    db: DbView<T>,
    id: u64,
    t: int,
    p: int,
    ik: Seq<u8>,
    k: Seq<u8>,
)
    requires
        db.inv(),
        db.txns.contains_key(id),
        0 <= t < db.tables.len(),
    ensures
        held_by_another(db.tables[t], id, p, ik, k) <==> taken(db.tables[t].slots, p, ik, k, id),
{
    let tv = db.tables[t];
    assert(db.txn_ok(id));
    assert(tv.sound(db.clock.watermark));
    if held_by_another(tv, id, p, ik, k) {
        let j = choose|j: Seq<u8>| j != k && #[trigger] has_there(tv, id, p, ik, j);
        let x = choose|x: T| #[trigger]
            stands(tv.slots[j], id, Some(x)) && x.spec_index_key(p) == ik;
        assert(tv.slots[j].ok_by(db.clock.watermark));
        lemma_stands(tv.slots[j], id);
        lemma_one_stands(
            tv.slots[j],
            id,
            Some(x),
            crate::slot::live_value(crate::slot::current(tv.slots[j].chain, id)),
        );
        assert(holds_index_key(tv.slots[j], p, ik, id));
    }
    if taken(tv.slots, p, ik, k, id) {
        let j = choose|j: Seq<u8>| j != k && #[trigger] holds_index_key(tv.slots[j], p, ik, id);
        assert(tv.slots[j].ok_by(db.clock.watermark));
        lemma_stands(tv.slots[j], id);
        let x = crate::slot::live_value(crate::slot::current(tv.slots[j].chain, id))->Some_0;
        assert(stands(tv.slots[j], id, Some(x)));
        assert(has_there(tv, id, p, ik, j));
    }
}

/// The first index that bars decides.
proof fn lemma_first_barred<T: Versioned>(db: DbView<T>, id: u64, t: int, k: Seq<u8>, x: T, p: int)
    requires
        db.inv(),
        db.txns.contains_key(id),
        0 <= t < db.tables.len(),
        0 <= p,
    ensures
        ({
            let tv = db.tables[t];
            match crate::state::unique_conflict(tv, id, k, x, p) {
                None => forall|q: int| p <= q ==> !#[trigger] barred(tv, id, k, x, q),
                Some(e) => exists|q: int|
                    #![trigger tv.indexes[q]]
                    p <= q && barred(tv, id, k, x, q) && (forall|w: int|
                        p <= w < q ==> !#[trigger] barred(tv, id, k, x, w)) && e
                        == if claimed_by_another(tv, id, q, x.spec_index_key(q)) {
                        Error::WriteConflict { table: tv.name }
                    } else {
                        Error::DuplicateKey { table: tv.name, index: tv.indexes[q].name }
                    },
            }
        }),
    decreases db.tables[t].indexes.len() - p,
{
    let tv = db.tables[t];
    if p < tv.indexes.len() {
        lemma_held(db, id, t, p, x.spec_index_key(p), k);
        lemma_first_barred(db, id, t, k, x, p + 1);
        if barred(tv, id, k, x, p) {
            assert(tv.indexes[p].unique);
        } else {
            if let Some(e) = crate::state::unique_conflict(tv, id, k, x, p + 1) {
                let q = choose|q: int|
                    #![trigger tv.indexes[q]]
                    p + 1 <= q && barred(tv, id, k, x, q) && (forall|w: int|
                        p + 1 <= w < q ==> !#[trigger] barred(tv, id, k, x, w)) && e
                        == if claimed_by_another(tv, id, q, x.spec_index_key(q)) {
                        Error::WriteConflict { table: tv.name }
                    } else {
                        Error::DuplicateKey { table: tv.name, index: tv.indexes[q].name }
                    };
                assert(barred(tv, id, k, x, q));
                let z = tv.indexes[q];
            }
        }
    }
}

proof fn lemma_stopped<T: Versioned>(db: DbView<T>, id: u64, t: int, k: Seq<u8>, value: Option<T>)
    requires
        db.inv(),
        db.txns.contains_key(id),
        0 <= t < db.tables.len(),
    ensures
        stopped_by(db, id, t, k, value, db.write_conflict(id, t, k, value)),
{
    let tv = db.tables[t];
    let slot = tv.slots[k];
    assert(db.txn_ok(id));
    assert(tv.sound(db.clock.watermark));
    assert(slot.ok_by(db.clock.watermark));
    lemma_settled(slot.chain);
    let n = slot.chain.len() as int;
    if slot.lock == 0 {
        if n > 0 && db.txns[id].snapshot < slot.chain.last().begin {
            assert(slot.chain[n - 1] == slot.chain.last());
        }
        if exists|i: int| 0 <= i < n && db.txns[id].snapshot < (#[trigger] slot.chain[i]).begin {
            let i = choose|i: int|
                0 <= i < n && db.txns[id].snapshot < (#[trigger] slot.chain[i]).begin;
            if i < n - 1 {
                assert(slot.chain[i].begin <= slot.chain[i].end && slot.chain[i].end
                    <= slot.chain[n - 1].begin);
            }
            assert(slot.chain[n - 1].begin <= db.clock.watermark);
        }
    }
    if let Some(x) = value {
        lemma_first_barred(db, id, t, k, x, 0);
        let none = crate::state::unique_conflict(tv, id, k, x, 0);
        if let Some(e) = none {
            let q = choose|q: int|
                #![trigger tv.indexes[q]]
                0 <= q && barred(tv, id, k, x, q) && (forall|w: int|
                    0 <= w < q ==> !#[trigger] barred(tv, id, k, x, w)) && e
                    == if claimed_by_another(tv, id, q, x.spec_index_key(q)) {
                    Error::WriteConflict { table: tv.name }
                } else {
                    Error::DuplicateKey { table: tv.name, index: tv.indexes[q].name }
                };
            assert(barred(tv, id, k, x, q));
            let z = tv.indexes[q];
        } else {
            assert forall|p: int| !barred(tv, id, k, x, p) by {}
        }
    }
}

proof fn lemma_only_wrote<T: Versioned>(
    db: DbView<T>,
    id: u64,
    t: int,
    k: Seq<u8>,
    value: Option<T>,
)
    requires
        db.inv(),
        db.txns.contains_key(id),
        0 <= t < db.tables.len(),
    ensures
        only_wrote(db, db.after_write(id, t, k, value), id, t, k, value),
{
    let b = db.after_write(id, t, k, value);
    let x = db.tables[t];
    let y = b.tables[t];
    assert(db.txn_ok(id));
    assert(x.sound(db.clock.watermark));
    assert forall|j: Seq<u8>| j != k implies #[trigger] y.slots[j] == x.slots[j] by {
        assert(x.slots.contains_key(j));
    }
    assert forall|p: int, ik: Seq<u8>, r: u64| 0 <= p < x.claims.len() implies (
    #[trigger] y.holds_claim(p, ik, r) <==> if x.indexes[p].unique && value is Some && ik
        == value->Some_0.spec_index_key(p) {
        r == id
    } else {
        x.holds_claim(p, ik, r)
    }) by {
        if let Some(z) = value {
            assert(y.claims[p] == x.claims_for(id, z)[p]);
        }
    }
}

// --- the statements --------------------------------------------------------------

/// What an attempt to write `value` under `k` comes to: it is stopped, and then the
/// record has been read, or it is not, and then the version is there.
pub open spec fn write_went<T: Versioned>(
    a: DbView<T>,
    b: DbView<T>,
    id: u64,
    t: int,
    k: Seq<u8>,
    value: Option<T>,
    e: Option<Error>,
) -> bool {
    &&& stopped_by(a, id, t, k, value, e)
    &&& if e is Some {
        only_read(a, b, id, t, ScopeView::Row(k))
    } else {
        only_wrote(a, b, id, t, k, value)
    }
}

/// The error in a result, if there is one.
pub open spec fn error_of<R>(r: Result<R>) -> Option<Error> {
    match r {
        Ok(_) => None,
        Err(e) => Some(e),
    }
}

/// What `insert` does. A record that the transaction is shown under the key, its
/// own writes counted, is in the way of another; otherwise the record is written
/// unless that is stopped.
pub open spec fn inserted<T: Versioned>(
    a: DbView<T>,
    b: DbView<T>,
    id: u64,
    t: int,
    x: T,
    r: Result<()>,
) -> bool {
    let k = x.spec_key();
    let slot = a.tables[t].slots[k];
    &&& forall|y: T| #[trigger]
        shown(slot, as_of(a, id), id, Some(y)) ==> r == Err::<(), Error>(
            Error::DuplicateKey { table: a.tables[t].name, index: "primary_key" },
        ) && only_read(a, b, id, t, ScopeView::Row(k))
    &&& shown(slot, as_of(a, id), id, None) ==> write_went(a, b, id, t, k, Some(x), error_of(r))
}

/// An insert fails with a duplicate primary key if and only if the transaction is
/// shown a record under that key. Otherwise it succeeds, unless somebody is in the
/// way or a unique index bars it, and the record is what the transaction wrote.
pub proof fn law_inserts_add_records<T: Versioned, I: IsolationLevel>(
    tx: Transaction<I>,
    table: TableRef,
    x: T,
)
    ensures
        forall|db: &mut Database<T>, r: Result<()>| #[trigger]
            call_ensures(Transaction::<I>::insert::<T>, (&tx, db, table, x), r) && ready(
                tx,
                *db,
                table,
            ) ==> inserted(db@, final(db)@, tx.who(), table.id.0 as int, x, r),
{
    assert forall|db: &mut Database<T>, r: Result<()>| #[trigger]
        call_ensures(Transaction::<I>::insert::<T>, (&tx, db, table, x), r) && ready(
            tx,
            *db,
            table,
        ) implies inserted(db@, final(db)@, tx.who(), table.id.0 as int, x, r) by {
        db.lemma_wf();
        let t = table.id.0 as int;
        let id = tx.who();
        let k = x.spec_key();
        let slot = db@.tables[t].slots[k];
        lemma_shown(db@, id, t, k);
        let found = db@.record_at(id, t, k);
        lemma_only_read(db@, id, t, ScopeView::Row(k));
        lemma_stopped(db@, id, t, k, Some(x));
        lemma_only_wrote(db@, id, t, k, Some(x));
        assert forall|y: T| #[trigger]
            shown(slot, as_of(db@, id), id, Some(y)) implies found is Some by {
            lemma_one_shown(slot, as_of(db@, id), id, Some(y), found);
        }
        if shown(slot, as_of(db@, id), id, None) {
            lemma_one_shown(slot, as_of(db@, id), id, None, found);
        }
    }
}

/// What `replace` does: it refuses a record with another key, and otherwise writes
/// the record unless that is stopped.
pub open spec fn replaced<T: Versioned>(
    a: DbView<T>,
    b: DbView<T>,
    id: u64,
    t: int,
    k: Seq<u8>,
    next: T,
    e: Option<Error>,
) -> bool {
    if next.spec_key() != k {
        e == Some(Error::PrimaryKeyChanged { table: a.tables[t].name }) && only_read(
            a,
            b,
            id,
            t,
            ScopeView::Row(k),
        )
    } else {
        write_went(a, b, id, t, k, Some(next), e)
    }
}

/// Replacing a record fails if its key would change, if somebody is in the way or
/// if a unique index bars it, and for no other reason; in particular not because
/// the transaction has written the record before.
pub proof fn law_replacing_writes_the_record<T: Versioned, I: IsolationLevel>(
    tx: Transaction<I>,
    table: TableRef,
    key: T::Key,
    next: T,
)
    ensures
        forall|db: &mut Database<T>, r: Result<()>| #[trigger]
            call_ensures(Transaction::<I>::replace::<T>, (&tx, db, table, &key, next), r) && ready(
                tx,
                *db,
                table,
            ) ==> replaced(
                db@,
                final(db)@,
                tx.who(),
                table.id.0 as int,
                key.encoded(),
                next,
                error_of(r),
            ),
{
    assert forall|db: &mut Database<T>, r: Result<()>| #[trigger]
        call_ensures(Transaction::<I>::replace::<T>, (&tx, db, table, &key, next), r) && ready(
            tx,
            *db,
            table,
        ) implies replaced(
        db@,
        final(db)@,
        tx.who(),
        table.id.0 as int,
        key.encoded(),
        next,
        error_of(r),
    ) by {
        db.lemma_wf();
        lemma_replaced(db@, tx.who(), table.id.0 as int, key.encoded(), next);
    }
}

proof fn lemma_replaced<T: Versioned>(db: DbView<T>, id: u64, t: int, k: Seq<u8>, next: T)
    requires
        db.inv(),
        db.txns.contains_key(id),
        0 <= t < db.tables.len(),
    ensures
        match db.replace_error(id, t, k, next) {
            Some(e) => replaced(
                db,
                db.after_read(id, t, ScopeView::Row(k)),
                id,
                t,
                k,
                next,
                Some(e),
            ),
            None => replaced(db, db.after_write(id, t, k, Some(next)), id, t, k, next, None),
        },
{
    lemma_only_read(db, id, t, ScopeView::Row(k));
    lemma_stopped(db, id, t, k, Some(next));
    lemma_only_wrote(db, id, t, k, Some(next));
}

/// Fetching a record to modify returns a copy of what the transaction is shown of
/// it. Where that is nothing, it has read that.
pub proof fn law_fetching_copies_what_is_shown<T: Versioned, I: IsolationLevel>(
    tx: Transaction<I>,
    table: TableRef,
    key: T::Key,
)
    ensures
        forall|db: &mut Database<T>, r: Result<Option<T>>| #[trigger]
            call_ensures(Transaction::<I>::fetch::<T>, (&tx, db, table, &key), r) && ready(
                tx,
                *db,
                table,
            ) ==> fetched(db@, final(db)@, tx.who(), table.id.0 as int, key.encoded(), r),
{
    assert forall|db: &mut Database<T>, r: Result<Option<T>>| #[trigger]
        call_ensures(Transaction::<I>::fetch::<T>, (&tx, db, table, &key), r) && ready(
            tx,
            *db,
            table,
        ) implies fetched(db@, final(db)@, tx.who(), table.id.0 as int, key.encoded(), r) by {
        db.lemma_wf();
        let t = table.id.0 as int;
        let id = tx.who();
        let k = key.encoded();
        lemma_shown(db@, id, t, k);
        lemma_only_read(db@, id, t, ScopeView::Row(k));
    }
}

/// What `fetch` does.
pub open spec fn fetched<T: Versioned>(
    a: DbView<T>,
    b: DbView<T>,
    id: u64,
    t: int,
    k: Seq<u8>,
    r: Result<Option<T>>,
) -> bool {
    let slot = a.tables[t].slots[k];
    match r {
        Ok(None) => shown(slot, as_of(a, id), id, None) && only_read(
            a,
            b,
            id,
            t,
            ScopeView::Row(k),
        ),
        Ok(Some(copy)) => b == a && exists|x: T| #[trigger]
            shown(slot, as_of(a, id), id, Some(x)) && cloned(x, copy),
        Err(_) => false,
    }
}

/// What `update` does: nothing where the transaction is shown no record, and
/// otherwise it replaces the record by what the closure made of a copy of it.
pub open spec fn updated<T: Versioned>(
    a: DbView<T>,
    b: DbView<T>,
    id: u64,
    t: int,
    k: Seq<u8>,
    made: spec_fn(T, T) -> bool,
    r: Result<bool>,
) -> bool {
    let slot = a.tables[t].slots[k];
    &&& shown(slot, as_of(a, id), id, None) ==> r == Ok::<bool, Error>(false) && only_read(
        a,
        b,
        id,
        t,
        ScopeView::Row(k),
    )
    &&& forall|x: T| #[trigger]
        shown(slot, as_of(a, id), id, Some(x)) ==> r != Ok::<bool, Error>(false) && exists|next: T|
            made(x, next) && #[trigger] replaced(a, b, id, t, k, next, error_of(r))
}

/// What `delete` does: nothing where the transaction is shown no record, and
/// otherwise it puts a version on top that stands for the delete, unless that is
/// stopped.
pub open spec fn deleted<T: Versioned>(
    a: DbView<T>,
    b: DbView<T>,
    id: u64,
    t: int,
    k: Seq<u8>,
    r: Result<bool>,
) -> bool {
    let slot = a.tables[t].slots[k];
    &&& shown(slot, as_of(a, id), id, None) ==> r == Ok::<bool, Error>(false) && only_read(
        a,
        b,
        id,
        t,
        ScopeView::Row(k),
    )
    &&& forall|x: T| #[trigger]
        shown(slot, as_of(a, id), id, Some(x)) ==> r != Ok::<bool, Error>(false) && write_went(
            a,
            b,
            id,
            t,
            k,
            None,
            error_of(r),
        )
}

/// A delete of a record that the transaction is shown succeeds unless another
/// transaction is writing the record, or the first committer wins and one has
/// committed the record after the snapshot.
pub proof fn law_deletes_remove_what_is_shown<T: Versioned, I: IsolationLevel>(
    tx: Transaction<I>,
    table: TableRef,
    key: T::Key,
)
    ensures
        forall|db: &mut Database<T>, r: Result<bool>| #[trigger]
            call_ensures(Transaction::<I>::delete::<T>, (&tx, db, table, &key), r) && ready(
                tx,
                *db,
                table,
            ) ==> deleted(db@, final(db)@, tx.who(), table.id.0 as int, key.encoded(), r),
{
    assert forall|db: &mut Database<T>, r: Result<bool>| #[trigger]
        call_ensures(Transaction::<I>::delete::<T>, (&tx, db, table, &key), r) && ready(
            tx,
            *db,
            table,
        ) implies deleted(db@, final(db)@, tx.who(), table.id.0 as int, key.encoded(), r) by {
        db.lemma_wf();
        let t = table.id.0 as int;
        let id = tx.who();
        let k = key.encoded();
        let slot = db@.tables[t].slots[k];
        lemma_shown(db@, id, t, k);
        let found = db@.record_at(id, t, k);
        lemma_only_read(db@, id, t, ScopeView::Row(k));
        lemma_stopped(db@, id, t, k, None);
        lemma_only_wrote(db@, id, t, k, None);
        assert forall|x: T| #[trigger]
            shown(slot, as_of(db@, id), id, Some(x)) implies found is Some by {
            lemma_one_shown(slot, as_of(db@, id), id, Some(x), found);
        }
        if shown(slot, as_of(db@, id), id, None) {
            lemma_one_shown(slot, as_of(db@, id), id, None, found);
        }
    }
}

/// An update of a record that the transaction is shown, be it its own, hands a copy
/// to the closure and writes what that makes of it. It fails only if the key would
/// change, somebody is in the way or a unique index bars it.
pub proof fn law_updates_write_what_the_closure_makes<
    T: Versioned,
    I: IsolationLevel,
    F: FnOnce(&mut T),
>(tx: Transaction<I>, table: TableRef, key: T::Key, f: F, made: spec_fn(T, T) -> bool)
    requires
        forall|x: T, m: &mut T|
            cloned(x, *m) && #[trigger] call_ensures(f, (m,), ()) ==> #[trigger] made(
                x,
                *final(m),
            ),
    ensures
        forall|db: &mut Database<T>, r: Result<bool>| #[trigger]
            call_ensures(Transaction::<I>::update::<T, F>, (&tx, db, table, &key, f), r) && ready(
                tx,
                *db,
                table,
            ) ==> updated(
                db@,
                final(db)@,
                tx.who(),
                table.id.0 as int,
                key.encoded(),
                made,
                r,
            ),
{
    assert forall|db: &mut Database<T>, r: Result<bool>| #[trigger]
        call_ensures(Transaction::<I>::update::<T, F>, (&tx, db, table, &key, f), r) && ready(
            tx,
            *db,
            table,
        ) implies updated(
        db@,
        final(db)@,
        tx.who(),
        table.id.0 as int,
        key.encoded(),
        made,
        r,
    ) by {
        db.lemma_wf();
        let t = table.id.0 as int;
        let id = tx.who();
        let k = key.encoded();
        let slot = db@.tables[t].slots[k];
        lemma_shown(db@, id, t, k);
        let found = db@.record_at(id, t, k);
        lemma_only_read(db@, id, t, ScopeView::Row(k));
        if shown(slot, as_of(db@, id), id, None) {
            lemma_one_shown(slot, as_of(db@, id), id, None, found);
        }
        assert forall|x: T| #[trigger]
            shown(slot, as_of(db@, id), id, Some(x)) implies r != Ok::<bool, Error>(false)
            && exists|next: T|
            made(x, next) && #[trigger] replaced(db@, final(db)@, id, t, k, next, error_of(r)) by {
            lemma_one_shown(slot, as_of(db@, id), id, Some(x), found);
            assert forall|next: T| match #[trigger] db@.replace_error(id, t, k, next) {
                Some(e) => replaced(
                    db@,
                    db@.after_read(id, t, ScopeView::Row(k)),
                    id,
                    t,
                    k,
                    next,
                    Some(e),
                ),
                None => replaced(
                    db@,
                    db@.after_write(id, t, k, Some(next)),
                    id,
                    t,
                    k,
                    next,
                    None,
                ),
            } by {
                lemma_replaced(db@, id, t, k, next);
            }
        }
    }
}

/// Nobody is in the way of a transaction that runs alone and began at the last commit,
/// or does not mind what was committed since, and no key is claimed by another. So none
/// of its writes meets a conflict, whatever it has written before.
pub proof fn law_nobody_is_in_the_way_of_one_alone<T: Versioned>(
    db: Database<T>,
    id: u64,
    t: int,
    k: Seq<u8>,
    p: int,
    ik: Seq<u8>,
)
    requires
        db.wf(),
        forall|x: u64| #[trigger] db@.txns.contains_key(x) <==> x == id,
        db@.txns[id].snapshot == db@.clock.watermark || !db@.txns[id].rules.first_committer_wins,
        0 <= t < db@.tables.len(),
    ensures
        !in_the_way(db@, id, db@.tables[t].slots[k]),
        0 <= p < db@.tables[t].indexes.len() ==> !claimed_by_another(db@.tables[t], id, p, ik),
{
    db.lemma_wf();
    let slot = db@.tables[t].slots[k];
    assert(db@.txns.contains_key(id));
    assert(db@.txn_ok(id));
    assert(db@.tables[t].sound(db@.clock.watermark));
    assert(slot.ok_by(db@.clock.watermark));
    lemma_settled(slot.chain);
    if slot.lock != 0 {
        assert(db@.live(slot.lock));
    }
    assert(db@.tables[t].claims.len() == db@.tables[t].indexes.len());
    if 0 <= p < db@.tables[t].indexes.len() && claimed_by_another(db@.tables[t], id, p, ik) {
        assert(db@.tables[t].claims[p].contains_key(ik));
        assert(db@.live(db@.tables[t].claims[p][ik]));
    }
}

} // verus!
