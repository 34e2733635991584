//! What opening a database, registering tables, and looking after it promise.

use vstd::prelude::*;

use crate::aftermath::{lemma_oldest, oldest};
use crate::database::{Config, Database};
use crate::error::Result;
use crate::gc::GcStats;
use crate::schema::{Index, IndexDesc, RecordType, TableRef};
use crate::state::{kept_in, DbView};
use crate::table::TableView;
use crate::versioned::Versioned;

verus! {

/// A database opens with no tables, no transactions and no commits.
pub proof fn law_databases_open_empty<T: Versioned>(config: Config)
    ensures
        forall|r: Result<Database<T>>| #[trigger]
            call_ensures(Database::<T>::open, (config,), r) ==> match r {
                Ok(db) => {
                    &&& db.wf()
                    &&& db@.tables.len() == 0
                    &&& forall|x: u64| !#[trigger] db@.txns.contains_key(x)
                    &&& forall|x: u64| !#[trigger] db@.states.contains_key(x)
                    &&& db@.clock.watermark == 0
                    &&& db@.clock.next == 1
                    &&& forall|i: int| 0 <= i < 16 ==> #[trigger] db@.clock.issued[i] == 0
                    &&& db@.clock.config == config.oracle
                },
                Err(_) => false,
            },
{
}

/// Whether `tv` is a table for such records, with these indexes and nothing in it.
pub open spec fn bare<T: Versioned>(
    tv: TableView<T>,
    of: RecordType,
    name: &'static str,
    indexes: Seq<IndexDesc>,
) -> bool {
    &&& tv.of == of && tv.name == name && tv.indexes == indexes
    &&& forall|k: Seq<u8>|
        #![trigger tv.slots[k]]
        tv.slots[k].chain.len() == 0 && tv.slots[k].lock == 0 && tv.slots[k].readers
            == Set::<u64>::empty()
    &&& tv.claims.len() == indexes.len()
    &&& forall|p: int, ik: Seq<u8>|
        0 <= p < tv.claims.len() ==> !#[trigger] tv.claims[p].contains_key(ik)
    &&& tv.locks.len() == 0
    &&& tv.kept == Set::<Seq<u8>>::empty()
}

/// From `a` to `b` records of type `of` were registered, under `table`. If they were
/// before, that is the table there is for them, under the name it has, and nothing has
/// changed. Otherwise it is a new one after the others, with nothing in it.
pub open spec fn now_registered<T: Versioned>(
    a: DbView<T>,
    b: DbView<T>,
    of: RecordType,
    name: &'static str,
    indexes: Seq<IndexDesc>,
    table: TableRef,
) -> bool {
    let t = table.id.0 as int;
    &&& table.of == of
    &&& t < b.tables.len() && b.tables[t].of == of && b.tables[t].name == table.name
    &&& if exists|u: int| 0 <= u < a.tables.len() && (#[trigger] a.tables[u]).of == of {
        b == a
    } else {
        &&& t == a.tables.len()
        &&& b.tables.len() == t + 1
        &&& forall|u: int| 0 <= u < t ==> #[trigger] b.tables[u] == a.tables[u]
        &&& bare(b.tables[t], of, name, indexes)
        &&& b.clock == a.clock && b.txns == a.txns && b.states == a.states && b.gc_hint
            == a.gc_hint
    }
}

/// Registering a type makes a table for it, once.
pub proof fn law_types_are_registered_once<T: Versioned>(
    of: RecordType,
    name: &'static str,
    indexes: Vec<IndexDesc>,
)
    ensures
        forall|db: &mut Database<T>, r: Result<TableRef>| #[trigger]
            call_ensures(Database::<T>::register, (db, of, name, indexes), r) && db.wf() && (
            db@.tables.len() < 65536 || exists|u: int|
                0 <= u < db@.tables.len() && (#[trigger] db@.tables[u]).of == of) ==> match r {
                Ok(table) => now_registered(db@, final(db)@, of, name, indexes@, table),
                Err(_) => false,
            },
        forall|db: Database<T>, r: bool| #[trigger]
            call_ensures(Database::<T>::can_register, (&db, of), r) ==> (r <==> db@.tables.len()
                < 65536 || exists|u: int|
                0 <= u < db@.tables.len() && (#[trigger] db@.tables[u]).of == of),
{
    assert forall|db: &mut Database<T>, r: Result<TableRef>| #[trigger]
        call_ensures(Database::<T>::register, (db, of, name, indexes), r) && db.wf() && (
        db@.tables.len() < 65536 || exists|u: int|
            0 <= u < db@.tables.len() && (#[trigger] db@.tables[u]).of == of) implies match r {
        Ok(table) => now_registered(db@, final(db)@, of, name, indexes@, table),
        Err(_) => false,
    } by {
        db.lemma_wf();
    }
}

/// A handle is good for a table if the table has an index of that name at that
/// position. Of a table that is not registered every handle will do.
pub proof fn law_handles_go_by_position_and_name<T: Versioned, K>(
    table: TableRef,
    index: Index<T, K>,
)
    ensures
        forall|db: Database<T>, r: bool| #[trigger]
            call_ensures(Database::<T>::has_index::<K>, (&db, table, index), r) ==> {
                let t = table.id.0 as int;
                r <==> (t < db@.tables.len() && db@.tables[t].of == table.of ==> index.position
                    < db@.tables[t].indexes.len()
                    && db@.tables[t].indexes[index.position as int].name@ == index.name@)
            },
{
}

/// There is an id for another transaction as long as the shard has not handed out all
/// of its own, and a timestamp for another commit below the last one.
pub proof fn law_ids_and_timestamps_run_out<T: Versioned>(slot: usize)
    ensures
        forall|db: Database<T>, r: bool| #[trigger]
            call_ensures(Database::<T>::can_begin_on, (&db, slot), r) && db.wf() ==> (r <==> slot
                < 16 && db@.clock.issued[slot as int] < 0x07ff_ffff_ffff_ffff),
        forall|db: Database<T>, r: bool| #[trigger]
            call_ensures(Database::<T>::can_commit, (&db,), r) ==> (r <==> db@.clock.next
                < 0x7fff_ffff_ffff_ffff),
{
}

/// The statistics tell how many transactions are running, and the oldest snapshot that
/// any of them reads at.
pub proof fn law_statistics_count_what_is_running<T: Versioned>(db: Database<T>)
    requires
        db.wf(),
    ensures
        forall|s: GcStats| #[trigger]
            call_ensures(Database::<T>::stats, (&db,), s) ==> oldest(db@, s.watermark.0)
                && s.active_transactions == db@.txns.dom().len(),
{
    db.lemma_wf();
    lemma_oldest(db@);
}

/// How many keys some tables keep that have no version.
pub open spec fn vacant<T: Versioned>(tables: Seq<TableView<T>>) -> nat
    decreases tables.len(),
{
    if tables.len() == 0 {
        0
    } else {
        let tv = tables.last();
        vacant(tables.drop_last()) + tv.kept.filter(
            |k: Seq<u8>| tv.slots[k].chain.len() == 0,
        ).len()
    }
}

proof fn lemma_vacant<T: Versioned>(a: Seq<TableView<T>>, b: Seq<TableView<T>>)
    requires
        a.len() == b.len(),
        forall|t: int| 0 <= t < a.len() ==> #[trigger] b[t] == a[t].compacted(),
        forall|t: int| 0 <= t < a.len() ==> (#[trigger] a[t]).kept.finite(),
    ensures
        kept_in(a) - kept_in(b) == vacant(a),
    decreases a.len(),
{
    if a.len() > 0 {
        lemma_vacant(a.drop_last(), b.drop_last());
        let tv = a.last();
        let full = tv.kept.filter(|k: Seq<u8>| tv.slots[k].chain.len() > 0);
        let empty = tv.kept.filter(|k: Seq<u8>| tv.slots[k].chain.len() == 0);
        assert(b.last() == tv.compacted());
        assert(full + empty =~= tv.kept);
        vstd::set_lib::lemma_set_disjoint_lens(full, empty);
    }
}

/// Compacting a database that nobody is using gives back the keys that have no
/// version, says how many those were, and changes no record.
pub proof fn law_compaction_gives_back_what_is_vacant<T: Versioned>()
    ensures
        forall|db: &mut Database<T>, freed: usize| #[trigger]
            call_ensures(Database::<T>::compact, (db,), freed) && db.wf() && (forall|x: u64|
                !#[trigger] db@.txns.contains_key(x)) ==> {
                let a = db@;
                let b = final(db)@;
                &&& freed == if vacant(a.tables) <= usize::MAX {
                    vacant(a.tables) as int
                } else {
                    usize::MAX as int
                }
                &&& b.tables.len() == a.tables.len()
                &&& forall|t: int| 0 <= t < a.tables.len() ==> #[trigger] given_back(
                    a.tables[t],
                    b.tables[t],
                )
                &&& b.clock == a.clock && b.states == a.states && b.gc_hint == a.gc_hint
                &&& b.txns == a.txns
            },
{
    assert forall|db: &mut Database<T>, freed: usize| #[trigger]
        call_ensures(Database::<T>::compact, (db,), freed) && db.wf() && (forall|x: u64|
            !#[trigger] db@.txns.contains_key(x)) implies {
            let a = db@;
            let b = final(db)@;
            &&& freed == if vacant(a.tables) <= usize::MAX {
                vacant(a.tables) as int
            } else {
                usize::MAX as int
            }
            &&& b.tables.len() == a.tables.len()
            &&& forall|t: int| 0 <= t < a.tables.len() ==> #[trigger] given_back(
                a.tables[t],
                b.tables[t],
            )
            &&& b.clock == a.clock && b.states == a.states && b.gc_hint == a.gc_hint
            &&& b.txns == a.txns
        } by {
        db.lemma_wf();
        db.lemma_kept();
        let a = db@;
        let b = final(db)@;
        assert(a.txns.dom() =~= Set::<u64>::empty());
        lemma_vacant(a.tables, b.tables);
        assert forall|t: int| 0 <= t < a.tables.len() implies #[trigger] given_back(
            a.tables[t],
            b.tables[t],
        ) by {
            assert(a.tables[t].sound(a.clock.watermark));
            assert forall|k: Seq<u8>|
                #![trigger b.tables[t].slots[k]]
                b.tables[t].slots[k].chain == a.tables[t].slots[k].chain
                    && b.tables[t].slots[k].lock == a.tables[t].slots[k].lock && (
                a.tables[t].slots[k].chain.len() > 0 ==> b.tables[t].slots[k].readers
                    == a.tables[t].slots[k].readers) by {
                let slot = a.tables[t].slots[k];
                assert(slot.ok_by(a.clock.watermark));
                assert(b.tables[t].slots[k] == slot.compacted());
                if slot.chain.len() == 0 {
                    assert(b.tables[t].slots[k].chain =~= slot.chain);
                }
            }
        }
    }
}

/// From `a` to `b` only the keys have gone that have no version.
pub open spec fn given_back<T: Versioned>(a: TableView<T>, b: TableView<T>) -> bool {
    &&& b.of == a.of && b.name == a.name && b.indexes == a.indexes
    &&& b.claims == a.claims && b.locks == a.locks
    &&& forall|k: Seq<u8>| #[trigger]
        b.kept.contains(k) <==> a.kept.contains(k) && a.slots[k].chain.len() > 0
    &&& forall|k: Seq<u8>|
        #![trigger b.slots[k]]
        b.slots[k].chain == a.slots[k].chain && b.slots[k].lock == a.slots[k].lock && (
        a.slots[k].chain.len() > 0 ==> b.slots[k].readers == a.slots[k].readers)
}

} // verus!
