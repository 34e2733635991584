//! Which statements cannot even start.

use vstd::prelude::*;

use crate::database::transaction::{Ref, Transaction};
use crate::database::Database;
use crate::error::{Error, Result};
use crate::filter::Bound;
use crate::isolation::IsolationLevel;
use crate::schema::{Encodable, Index, TableRef};
use crate::state::{unique_conflict, DbView};
use crate::table::TableView;
use crate::versioned::Versioned;

verus! {

/// A statement of `id` on `table` was turned away, and so changed nothing, if `id` is
/// no longer running or the table is not one of the database's; and for no such reason
/// otherwise.
pub open spec fn turned_away<T: Versioned, R>(
    a: DbView<T>,
    b: DbView<T>,
    id: u64,
    table: TableRef,
    r: Result<R>,
) -> bool {
    let known = table.id.0 < a.tables.len() && a.tables[table.id.0 as int].of == table.of;
    if !a.txns.contains_key(id) {
        r == Err::<R, Error>(Error::Aborted) && b == a
    } else if !known {
        r == Err::<R, Error>(Error::TableNotRegistered { table: table.name }) && b == a
    } else {
        match r {
            Err(Error::Aborted) | Err(Error::TableNotRegistered { .. }) => false,
            _ => true,
        }
    }
}

/// A read of a transaction that has ended is refused, and so is one of a table that is
/// not registered.
pub proof fn law_reads_need_a_transaction_and_a_table<T: Versioned, I: IsolationLevel>(
    tx: Transaction<I>,
    table: TableRef,
    key: T::Key,
    predicate: T::Predicate,
)
    ensures
        forall|db: &mut Database<T>, r: Result<Option<Ref<T>>>| #[trigger]
            call_ensures(Transaction::<I>::get::<T>, (&tx, db, table, &key), r)
                && db.wf() ==> turned_away(db@, final(db)@, tx.who(), table, r),
        forall|db: &mut Database<T>, r: Result<Option<T>>| #[trigger]
            call_ensures(Transaction::<I>::fetch::<T>, (&tx, db, table, &key), r)
                && db.wf() ==> turned_away(db@, final(db)@, tx.who(), table, r),
        forall|db: &mut Database<T>, r: Result<Vec<Ref<T>>>| #[trigger]
            call_ensures(Transaction::<I>::scan::<T>, (&tx, db, table), r)
                && db.wf() ==> turned_away(db@, final(db)@, tx.who(), table, r),
        forall|db: &mut Database<T>, r: Result<Vec<Ref<T>>>| #[trigger]
            call_ensures(Transaction::<I>::scan_where::<T>, (&tx, db, table, predicate), r)
                && db.wf() ==> turned_away(db@, final(db)@, tx.who(), table, r),
{
}

/// So is a scan of an index.
pub proof fn law_index_scans_need_a_transaction_and_a_table<
    T: Versioned,
    I: IsolationLevel,
    K: Encodable,
>(tx: Transaction<I>, table: TableRef, index: Index<T, K>, lo: Bound<K>, hi: Bound<K>)
    ensures
        forall|db: &mut Database<T>, r: Result<Vec<Ref<T>>>| #[trigger]
            call_ensures(
                Transaction::<I>::scan_index::<T, K>,
                (&tx, db, table, index, lo, hi),
                r,
            ) && db.wf() && db@.has_index(table, index) ==> turned_away(
                db@,
                final(db)@,
                tx.who(),
                table,
                r,
            ),
{
}

proof fn lemma_conflicts<T: Versioned>(tv: TableView<T>, id: u64, k: Seq<u8>, x: T, p: int)
    ensures
        unique_conflict(tv, id, k, x, p) matches Some(e) ==> e is WriteConflict
            || e is DuplicateKey,
    decreases tv.indexes.len() - p,
{
    if 0 <= p < tv.indexes.len() {
        lemma_conflicts(tv, id, k, x, p + 1);
    }
}

/// A write of a transaction that has ended is refused, and so is one to a table that is
/// not registered.
pub proof fn law_writes_need_a_transaction_and_a_table<
    T: Versioned,
    I: IsolationLevel,
    F: FnOnce(&mut T),
>(tx: Transaction<I>, table: TableRef, key: T::Key, value: T, f: F)
    ensures
        forall|db: &mut Database<T>, r: Result<()>| #[trigger]
            call_ensures(Transaction::<I>::insert::<T>, (&tx, db, table, value), r)
                && db.wf() ==> turned_away(db@, final(db)@, tx.who(), table, r),
        forall|db: &mut Database<T>, r: Result<()>| #[trigger]
            call_ensures(Transaction::<I>::replace::<T>, (&tx, db, table, &key, value), r)
                && db.wf() ==> turned_away(db@, final(db)@, tx.who(), table, r),
        forall|db: &mut Database<T>, r: Result<bool>| #[trigger]
            call_ensures(Transaction::<I>::delete::<T>, (&tx, db, table, &key), r)
                && db.wf() ==> turned_away(db@, final(db)@, tx.who(), table, r),
        forall|db: &mut Database<T>, r: Result<bool>| #[trigger]
            call_ensures(Transaction::<I>::update::<T, F>, (&tx, db, table, &key, f), r)
                && db.wf() ==> turned_away(db@, final(db)@, tx.who(), table, r),
{
    assert forall|db: DbView<T>, id: u64, u: int, k: Seq<u8>, v: Option<T>| #[trigger]
        db.write_conflict(id, u, k, v) matches Some(e) ==> e is WriteConflict
            || e is DuplicateKey by {
        if v is Some {
            lemma_conflicts(db.tables[u], id, k, v->Some_0, 0);
        }
    }
}

} // verus!
