//! What the engine promises as a whole, on concrete values.

use std::sync::Arc;

use mvcc::filter::Bound;
use mvcc::retry::{Attempts, Step};
use mvcc::schema::{Encodable, IndexDesc, IndexKey, RecordType, TableId, TableRef};
use mvcc::{
    Config, Database, Error, Index, IsolationLevel, ReadCommitted, Ref, Result, Serializable,
    Snapshot, Timestamp, Transaction, Versioned,
};

#[derive(Clone, Debug, PartialEq)]
struct Item {
    id: u64,
    tag: u32,
    code: String,
    value: i64,
}

impl Versioned for Item {
    type Key = u64;
    type Predicate = Arc<dyn Fn(&Item) -> bool>;

    fn key(&self) -> u64 {
        self.id
    }

    fn key_bytes(&self) -> IndexKey {
        self.id.encode()
    }

    fn index_key(&self, position: usize) -> IndexKey {
        if position == 0 {
            self.tag.encode()
        } else {
            self.code.encode()
        }
    }

    fn satisfies(&self, predicate: &Self::Predicate) -> bool {
        predicate(self)
    }
}

fn item(id: u64, tag: u32, value: i64) -> Item {
    Item { id, tag, code: format!("code-{id}"), value }
}

fn tags() -> Index<Item, u32> {
    Index::new(0, "tag")
}

fn codes() -> Index<Item, String> {
    Index::new(1, "code")
}

fn open(items: &[Item]) -> (Database<Item>, TableRef) {
    let mut db = Database::open(Config::in_memory()).unwrap();
    let table = db
        .register(
            RecordType(0),
            "items",
            vec![
                IndexDesc { name: "tag", unique: false },
                IndexDesc { name: "code", unique: true },
            ],
        )
        .unwrap();
    commit(&mut db, |tx, db| {
        for i in items {
            tx.insert(db, table, i.clone())?;
        }
        Ok(())
    });
    (db, table)
}

/// Run `body` in a transaction that commits.
fn commit(
    db: &mut Database<Item>,
    body: impl FnOnce(&Transaction<Snapshot>, &mut Database<Item>) -> Result<()>,
) {
    let tx = db.begin();
    body(&tx, db).unwrap();
    tx.commit(db).unwrap();
}

fn set(db: &mut Database<Item>, table: TableRef, id: u64, value: i64) {
    commit(db, |tx, db| tx.update(db, table, &id, |i| i.value = value).map(|_| ()));
}

fn value<I: IsolationLevel>(
    tx: &Transaction<I>,
    db: &mut Database<Item>,
    table: TableRef,
    id: u64,
) -> Option<i64> {
    tx.get(db, table, &id).unwrap().map(|i| i.value)
}

fn now(db: &mut Database<Item>, table: TableRef, id: u64) -> Option<i64> {
    let tx = db.begin();
    let seen = value(&tx, db, table, id);
    tx.commit(db).unwrap();
    seen
}

fn ids(rows: &[Ref<Item>]) -> Vec<u64> {
    rows.iter().map(|r| r.id).collect()
}

// --- reads ------------------------------------------------------------------

#[test]
fn a_missing_record_is_absent() {
    let (mut db, items) = open(&[item(1, 0, 10)]);
    let tx = db.begin();
    assert!(tx.get(&mut db, items, &2).unwrap().is_none());
    assert_eq!(tx.update(&mut db, items, &2, |i| i.value = 0).unwrap(), false);
    assert_eq!(tx.delete(&mut db, items, &2).unwrap(), false);
}

#[test]
fn a_record_outlives_what_overwrites_it() {
    let (mut db, items) = open(&[item(1, 0, 10)]);
    let tx = db.begin();
    let held = tx.get(&mut db, items, &1).unwrap().unwrap();
    set(&mut db, items, 1, 11);
    assert_eq!(held.value, 10);
    assert_eq!(held.to_owned(), item(1, 0, 10));
}

#[test]
fn scans_come_in_key_order() {
    let (mut db, items) = open(&[item(300, 0, 1), item(2, 0, 2), item(255, 0, 3)]);
    let tx = db.begin();
    assert_eq!(ids(&tx.scan(&mut db, items).unwrap()), vec![2, 255, 300]);
}

#[test]
fn scans_with_a_predicate_return_what_satisfies_it() {
    let (mut db, items) = open(&[item(1, 0, 5), item(2, 0, 6), item(3, 0, 7)]);
    let tx = db.begin();
    let odd = tx
        .scan_where(&mut db, items, Arc::new(|i: &Item| i.value % 2 == 1))
        .unwrap();
    assert_eq!(ids(&odd), vec![1, 3]);
}

#[test]
fn index_ranges_have_inclusive_exclusive_and_open_ends() {
    let (mut db, items) =
        open(&[item(1, 30, 0), item(2, 10, 0), item(3, 20, 0), item(4, 10, 0)]);
    let tx = db.begin();
    let mut range = |lo, hi| ids(&tx.scan_index(&mut db, items, tags(), lo, hi).unwrap());
    assert_eq!(range(Bound::Unbounded, Bound::Unbounded), vec![2, 4, 3, 1]);
    assert_eq!(range(Bound::Included(10), Bound::Included(20)), vec![2, 4, 3]);
    assert_eq!(range(Bound::Excluded(10), Bound::Included(20)), vec![3]);
    assert_eq!(range(Bound::Included(10), Bound::Excluded(20)), vec![2, 4]);
    assert_eq!(range(Bound::Excluded(20), Bound::Unbounded), vec![1]);
    assert_eq!(range(Bound::Included(21), Bound::Included(11)), Vec::<u64>::new());
}

#[test]
fn index_ranges_see_the_transaction_s_own_writes() {
    let (mut db, items) = open(&[item(1, 10, 0)]);
    let tx = db.begin();
    tx.insert(&mut db, items, item(2, 10, 0)).unwrap();
    tx.update(&mut db, items, &1, |i| i.tag = 99).unwrap();
    let ten = tx
        .scan_index(&mut db, items, tags(), Bound::Included(10), Bound::Included(10))
        .unwrap();
    assert_eq!(ids(&ten), vec![2]);
}

#[test]
fn a_record_that_moves_within_a_range_is_returned_once() {
    let (mut db, items) = open(&[item(1, 10, 0)]);
    commit(&mut db, |tx, db| tx.update(db, items, &1, |i| i.tag = 20).map(|_| ()));
    let tx = db.begin();
    let all = tx
        .scan_index(&mut db, items, tags(), Bound::Included(10), Bound::Included(20))
        .unwrap();
    assert_eq!(ids(&all), vec![1]);
}

#[test]
fn scans_repeat_within_a_snapshot() {
    let (mut db, items) = open(&[item(1, 0, 10)]);
    let tx = db.begin();
    let first = ids(&tx.scan(&mut db, items).unwrap());
    commit(&mut db, |t, db| {
        t.insert(db, items, item(2, 0, 20))?;
        t.delete(db, items, &1).map(|_| ())
    });
    assert_eq!(ids(&tx.scan(&mut db, items).unwrap()), first);
    let fresh = db.begin();
    assert_eq!(ids(&fresh.scan(&mut db, items).unwrap()), vec![2]);
}

#[test]
fn read_committed_sees_each_commit_whole() {
    let (mut db, items) = open(&[item(1, 0, 10), item(2, 0, 20)]);
    let rc = db.begin_with::<ReadCommitted>();
    let writer = db.begin();
    writer.update(&mut db, items, &1, |i| i.value = 11).unwrap();
    writer.update(&mut db, items, &2, |i| i.value = 21).unwrap();
    assert_eq!((value(&rc, &mut db, items, 1), value(&rc, &mut db, items, 2)), (Some(10), Some(20)));
    writer.commit(&mut db).unwrap();
    assert_eq!((value(&rc, &mut db, items, 1), value(&rc, &mut db, items, 2)), (Some(11), Some(21)));
}

#[test]
fn reading_and_beginning_disturb_nobody() {
    let (mut db, items) = open(&[item(1, 0, 10)]);
    let watcher = db.begin();
    let reader = db.begin_with::<Serializable>();
    reader.scan(&mut db, items).unwrap();
    reader.get(&mut db, items, &1).unwrap();
    assert_eq!(value(&watcher, &mut db, items, 1), Some(10));
    watcher.update(&mut db, items, &1, |i| i.value = 12).unwrap();
    watcher.commit(&mut db).unwrap();
    assert_eq!(now(&mut db, items, 1), Some(12));
}

// --- writes -----------------------------------------------------------------

#[test]
fn an_abort_discards_every_write() {
    let (mut db, items) = open(&[item(1, 0, 10), item(2, 0, 20)]);
    let tx = db.begin();
    tx.update(&mut db, items, &1, |i| i.value = 0).unwrap();
    tx.delete(&mut db, items, &2).unwrap();
    tx.insert(&mut db, items, item(3, 0, 30)).unwrap();
    tx.abort(&mut db);
    assert_eq!(now(&mut db, items, 1), Some(10));
    assert_eq!(now(&mut db, items, 2), Some(20));
    assert_eq!(now(&mut db, items, 3), None);
}

#[test]
fn a_transaction_may_write_a_record_twice() {
    let (mut db, items) = open(&[item(1, 0, 10)]);
    let tx = db.begin();
    tx.update(&mut db, items, &1, |i| i.value += 1).unwrap();
    tx.update(&mut db, items, &1, |i| i.value += 1).unwrap();
    assert_eq!(value(&tx, &mut db, items, 1), Some(12));
    tx.commit(&mut db).unwrap();
    assert_eq!(now(&mut db, items, 1), Some(12));
}

#[test]
fn a_failed_write_leaves_the_transaction_usable() {
    let (mut db, items) = open(&[item(1, 0, 10), item(2, 0, 20)]);
    let tx = db.begin();
    assert!(tx.insert(&mut db, items, item(1, 0, 0)).is_err());
    tx.update(&mut db, items, &2, |i| i.value = 21).unwrap();
    tx.commit(&mut db).unwrap();
    assert_eq!(now(&mut db, items, 2), Some(21));
}

#[test]
fn a_refused_write_gives_its_unique_keys_back() {
    let (mut db, items) = open(&[item(1, 0, 10)]);
    let blocker = db.begin();
    blocker.update(&mut db, items, &1, |i| i.value = 11).unwrap();
    // The record is locked, so the update fails after its new code is claimed.
    let refused = db.begin();
    let err = refused
        .update(&mut db, items, &1, |i| i.code = "wanted".to_string())
        .unwrap_err();
    assert!(matches!(err, Error::WriteConflict { table: "items" }));
    // Somebody else may have that code at once.
    let other = db.begin();
    other
        .insert(&mut db, items, Item { code: "wanted".to_string(), ..item(9, 0, 0) })
        .unwrap();
    other.commit(&mut db).unwrap();
}

#[test]
fn unique_keys_stay_unique() {
    let (mut db, items) = open(&[item(1, 0, 10), item(2, 0, 20)]);
    let tx = db.begin();
    let err = tx
        .update(&mut db, items, &2, |i| i.code = "code-1".to_string())
        .unwrap_err();
    assert!(matches!(err, Error::DuplicateKey { table: "items", index: "code" }));
    tx.update(&mut db, items, &1, |i| i.code = "other".to_string()).unwrap();
    tx.update(&mut db, items, &2, |i| i.code = "code-1".to_string()).unwrap();
    tx.commit(&mut db).unwrap();
    let check = db.begin();
    let found = check
        .scan_index(
            &mut db,
            items,
            codes(),
            Bound::Included("code-1".to_string()),
            Bound::Included("code-1".to_string()),
        )
        .unwrap();
    assert_eq!(ids(&found), vec![2]);
}

// --- errors -----------------------------------------------------------------

#[test]
fn a_duplicate_primary_key_names_the_key() {
    let (mut db, items) = open(&[item(1, 0, 10)]);
    let tx = db.begin();
    let err = tx
        .insert(&mut db, items, Item { code: "new".to_string(), ..item(1, 0, 11) })
        .unwrap_err();
    assert!(matches!(err, Error::DuplicateKey { table: "items", index: "primary_key" }));
    assert_eq!(err.message(), "duplicate key on `items`.`primary_key`");
    assert!(!err.is_retriable());
}

#[test]
fn changing_the_primary_key_is_refused() {
    let (mut db, items) = open(&[item(1, 0, 10)]);
    let tx = db.begin();
    let err = tx.update(&mut db, items, &1, |i| i.id = 2).unwrap_err();
    assert!(matches!(err, Error::PrimaryKeyChanged { table: "items" }));
    assert_eq!(
        err.message(),
        "an update may not change the primary key of `items`; delete and insert instead"
    );
}

#[test]
fn an_unregistered_table_is_refused() {
    let (mut db, _) = open(&[]);
    let nowhere = TableRef { id: TableId(7), of: RecordType(7), name: "nowhere" };
    let tx = db.begin();
    let err = tx.scan(&mut db, nowhere).unwrap_err();
    assert!(matches!(err, Error::TableNotRegistered { table: "nowhere" }));
    assert_eq!(
        err.message(),
        "`nowhere` was not registered: call `db.register::<nowhere>()` at startup"
    );
}

#[test]
fn a_transaction_is_refused_where_it_is_not_running() {
    let (mut db, _) = open(&[]);
    let (mut other, items) = open(&[]);
    let tx = db.begin();
    let err = tx.get(&mut other, items, &1).unwrap_err();
    assert!(matches!(err, Error::Aborted));
    assert_eq!(err.message(), "transaction is aborted");
    assert!(matches!(tx.commit(&mut other), Err(Error::Aborted)));
}

#[test]
fn conflicts_are_worth_retrying() {
    let (mut db, items) = open(&[item(1, 0, 10)]);
    let a = db.begin();
    let b = db.begin();
    a.update(&mut db, items, &1, |i| i.value = 1).unwrap();
    let err = b.update(&mut db, items, &1, |i| i.value = 2).unwrap_err();
    assert!(err.is_retriable());
    assert_eq!(err.message(), "write-write conflict on table `items`");
    assert_eq!(
        Error::SerializationFailure.message(),
        "could not serialize access due to read/write dependencies"
    );
    assert!(Error::SerializationFailure.is_retriable());
}

// --- serializability ----------------------------------------------------------

#[test]
fn three_conflicts_in_a_row_are_broken() {
    let (mut db, items) = open(&[item(1, 0, 10), item(2, 0, 20), item(3, 0, 30)]);

    // `b` reads row 1, which is then overwritten, and writes row 2.
    let b = db.begin_with::<Serializable>();
    assert_eq!(value(&b, &mut db, items, 1), Some(10));
    set(&mut db, items, 1, 11);
    let a = db.begin_with::<Serializable>();
    a.update(&mut db, items, &3, |i| i.value = 31).unwrap();
    b.update(&mut db, items, &2, |i| i.value = 21).unwrap();
    b.commit(&mut db).unwrap();

    // `a` now sees the first commit and not the second, which comes before it.
    assert_eq!(value(&a, &mut db, items, 1), Some(11));
    assert_eq!(value(&a, &mut db, items, 2), Some(20));
    assert!(matches!(a.commit(&mut db), Err(Error::SerializationFailure)));
    assert_eq!(now(&mut db, items, 3), Some(30));
}

#[test]
fn conflicts_stay_on_record_while_they_matter() {
    let (mut db, items) =
        open(&[item(1, 0, 10), item(2, 0, 20), item(3, 0, 30), item(4, 0, 40)]);
    let b = db.begin_with::<Serializable>();
    assert_eq!(value(&b, &mut db, items, 1), Some(10));
    set(&mut db, items, 1, 11);
    let a = db.begin_with::<Serializable>();
    b.update(&mut db, items, &2, |i| i.value = 21).unwrap();
    b.commit(&mut db).unwrap();

    // Enough commits for what no longer matters to be dropped.
    for v in 0..300 {
        set(&mut db, items, 4, v);
    }
    a.update(&mut db, items, &3, |i| i.value = 31).unwrap();
    assert_eq!(value(&a, &mut db, items, 2), Some(20));
    assert!(matches!(a.commit(&mut db), Err(Error::SerializationFailure)));
}

#[test]
fn read_locks_stay_on_record_while_they_matter() {
    let (mut db, items) =
        open(&[item(1, 0, 10), item(2, 0, 20), item(3, 0, 30), item(4, 0, 40)]);
    // `r` reads row 2 and commits while `b` runs.
    let b = db.begin_with::<Serializable>();
    assert_eq!(value(&b, &mut db, items, 1), Some(10));
    let r = db.begin_with::<Serializable>();
    assert_eq!(value(&r, &mut db, items, 2), Some(20));
    r.update(&mut db, items, &3, |i| i.value = 31).unwrap();
    r.commit(&mut db).unwrap();
    for v in 0..300 {
        set(&mut db, items, 4, v);
    }
    set(&mut db, items, 1, 11);
    // What `b` read has changed, and `r` has read what it overwrites.
    b.update(&mut db, items, &2, |i| i.value = 21).unwrap();
    assert!(matches!(b.commit(&mut db), Err(Error::SerializationFailure)));
}

#[test]
fn a_pivot_cannot_commit() {
    let (mut db, items) = open(&[item(1, 0, 10), item(2, 0, 20)]);
    let reader = db.begin_with::<Serializable>();
    reader
        .scan_where(&mut db, items, Arc::new(|i: &Item| i.value >= 20))
        .unwrap();
    let pivot = db.begin_with::<Serializable>();
    assert_eq!(value(&pivot, &mut db, items, 1), Some(10));
    set(&mut db, items, 1, 11);
    pivot.insert(&mut db, items, item(5, 0, 50)).unwrap();
    assert!(matches!(pivot.commit(&mut db), Err(Error::SerializationFailure)));
    assert_eq!(now(&mut db, items, 5), None);
}

#[test]
fn a_narrow_predicate_is_not_disturbed_by_other_rows() {
    let (mut db, items) = open(&[item(1, 0, 10), item(2, 0, 20)]);
    let a = db.begin_with::<Serializable>();
    let b = db.begin_with::<Serializable>();
    a.scan_where(&mut db, items, Arc::new(|i: &Item| i.value == 10)).unwrap();
    b.scan_where(&mut db, items, Arc::new(|i: &Item| i.value == 20)).unwrap();
    a.update(&mut db, items, &1, |i| i.value = 11).unwrap();
    b.update(&mut db, items, &2, |i| i.value = 21).unwrap();
    a.commit(&mut db).unwrap();
    b.commit(&mut db).unwrap();
}

#[test]
fn phantoms_in_an_index_range_are_noticed() {
    let (mut db, items) = open(&[item(1, 10, 0)]);
    let a = db.begin_with::<Serializable>();
    let b = db.begin_with::<Serializable>();
    for tx in [&a, &b] {
        let found = tx
            .scan_index(&mut db, items, tags(), Bound::Included(20), Bound::Included(29))
            .unwrap();
        assert!(found.is_empty());
    }
    a.insert(&mut db, items, item(2, 21, 0)).unwrap();
    b.insert(&mut db, items, item(3, 22, 0)).unwrap();
    a.commit(&mut db).unwrap();
    assert!(matches!(b.commit(&mut db), Err(Error::SerializationFailure)));
}

// --- statements that write nothing --------------------------------------------

/// Run two serializable transactions side by side. Each makes a statement that
/// writes nothing, and then changes what the other's was about. They cannot both
/// have come first.
fn only_one_commits(
    records: &[Item],
    first: impl FnOnce(&Transaction<Serializable>, &mut Database<Item>, TableRef),
    second: impl FnOnce(&Transaction<Serializable>, &mut Database<Item>, TableRef),
) {
    let (mut db, items) = open(records);
    let a = db.begin_with::<Serializable>();
    let b = db.begin_with::<Serializable>();
    first(&a, &mut db, items);
    second(&b, &mut db, items);
    a.commit(&mut db).unwrap();
    assert!(matches!(b.commit(&mut db), Err(Error::SerializationFailure)));
}

#[test]
fn a_record_found_absent_by_a_delete_has_been_read() {
    only_one_commits(
        &[],
        |tx, db, items| {
            assert_eq!(tx.delete(db, items, &1).unwrap(), false);
            tx.insert(db, items, item(2, 0, 0)).unwrap();
        },
        |tx, db, items| {
            assert!(tx.get(db, items, &2).unwrap().is_none());
            tx.insert(db, items, item(1, 0, 0)).unwrap();
        },
    );
}

#[test]
fn a_record_found_absent_by_an_update_has_been_read() {
    only_one_commits(
        &[],
        |tx, db, items| {
            assert_eq!(tx.update(db, items, &1, |_| unreachable!()).unwrap(), false);
            tx.insert(db, items, item(2, 0, 0)).unwrap();
        },
        |tx, db, items| {
            assert_eq!(tx.update(db, items, &2, |_| unreachable!()).unwrap(), false);
            tx.insert(db, items, item(1, 0, 0)).unwrap();
        },
    );
}

#[test]
fn a_record_found_present_by_an_insert_has_been_read() {
    only_one_commits(
        &[item(1, 0, 0), item(2, 0, 0)],
        |tx, db, items| {
            assert!(tx.insert(db, items, item(1, 0, 0)).is_err());
            tx.delete(db, items, &2).unwrap();
        },
        |tx, db, items| {
            assert!(tx.insert(db, items, item(2, 0, 0)).is_err());
            tx.delete(db, items, &1).unwrap();
        },
    );
}

#[test]
fn a_record_shown_to_an_update_that_failed_has_been_read() {
    let look = |tx: &Transaction<Serializable>, db: &mut Database<Item>, items, id: u64| {
        let mut shown = 0;
        let refused = tx.update(db, items, &id, |i| {
            shown = i.value;
            i.id = 99;
        });
        assert!(matches!(refused, Err(Error::PrimaryKeyChanged { .. })));
        shown
    };
    only_one_commits(
        &[item(1, 0, 10), item(2, 0, 20)],
        |tx, db, items| {
            assert_eq!(look(tx, db, items, 1), 10);
            tx.update(db, items, &2, |i| i.value = 10).unwrap();
        },
        |tx, db, items| {
            assert_eq!(look(tx, db, items, 2), 20);
            tx.update(db, items, &1, |i| i.value = 20).unwrap();
        },
    );
}

#[test]
fn a_refused_statement_is_no_read_below_serializable() {
    let (mut db, items) = open(&[]);
    let a = db.begin();
    let b = db.begin();
    assert_eq!(a.delete(&mut db, items, &1).unwrap(), false);
    a.insert(&mut db, items, item(2, 0, 0)).unwrap();
    assert_eq!(b.delete(&mut db, items, &2).unwrap(), false);
    b.insert(&mut db, items, item(1, 0, 0)).unwrap();
    a.commit(&mut db).unwrap();
    b.commit(&mut db).unwrap();
}

// --- attempts -----------------------------------------------------------------

#[test]
fn of_a_run_of_attempts_only_the_last_takes_effect() {
    let (mut db, items) = open(&[item(1, 0, 10)]);
    let mut attempts = Attempts::new();
    let outcome = loop {
        let n = attempts.made as u64;
        let tx = db.begin();
        tx.insert(&mut db, items, item(100 + n, 0, 0)).unwrap();
        // The first two times someone else is faster.
        if n < 2 {
            set(&mut db, items, 1, 20 + n as i64);
        }
        let said = tx.update(&mut db, items, &1, |i| i.value += 1);
        assert_eq!(now(&mut db, items, 100 + n), None, "not before it commits");
        let outcome = match said {
            Ok(found) => tx.commit(&mut db).map(|_| found),
            Err(e) => {
                tx.abort(&mut db);
                Err(e)
            }
        };
        match attempts.after(outcome) {
            Step::Finish(outcome) => break outcome,
            Step::RetryAfter { .. } => {}
        }
    };
    assert_eq!(outcome.unwrap(), true);
    assert_eq!(attempts.made, 3);
    assert_eq!(now(&mut db, items, 1), Some(22));
    assert_eq!(now(&mut db, items, 100), None);
    assert_eq!(now(&mut db, items, 101), None);
    assert_eq!(now(&mut db, items, 102), Some(0));
}

#[test]
fn attempts_refused_at_their_commit_leave_nothing_behind() {
    let (mut db, items) = open(&[item(1, 0, 10), item(2, 0, 20)]);
    let mut attempts = Attempts::new();
    let outcome = loop {
        let n = attempts.made as u64;
        let tx = db.begin_with::<Serializable>();
        assert!(value(&tx, &mut db, items, 1).is_some());
        tx.update(&mut db, items, &2, |i| i.value += 1).unwrap();
        tx.insert(&mut db, items, item(100 + n, 0, 0)).unwrap();
        if n < 1 {
            let other = db.begin_with::<Serializable>();
            assert!(value(&other, &mut db, items, 2).is_some());
            other.update(&mut db, items, &1, |i| i.value = 11).unwrap();
            other.commit(&mut db).unwrap();
        }
        match attempts.after(tx.commit(&mut db)) {
            Step::Finish(outcome) => break outcome,
            Step::RetryAfter { .. } => {}
        }
    };
    assert!(outcome.is_ok());
    assert_eq!(attempts.made, 2);
    assert_eq!(now(&mut db, items, 2), Some(21));
    assert_eq!(now(&mut db, items, 100), None);
    assert_eq!(now(&mut db, items, 101), Some(0));
}

#[test]
fn an_attempt_that_fails_for_good_leaves_nothing_behind() {
    let (mut db, items) = open(&[item(1, 0, 10)]);
    let mut attempts = Attempts::new();
    let tx = db.begin();
    tx.insert(&mut db, items, item(2, 0, 0)).unwrap();
    let said = tx.insert(&mut db, items, item(1, 0, 0));
    tx.abort(&mut db);
    assert!(matches!(
        attempts.after(said),
        Step::Finish(Err(Error::DuplicateKey { table: "items", index: "primary_key" }))
    ));
    assert_eq!(now(&mut db, items, 2), None);
    assert_eq!(now(&mut db, items, 1), Some(10));
}

#[test]
fn an_update_can_be_made_in_halves() {
    let (mut db, items) = open(&[item(1, 0, 10)]);
    let tx = db.begin();
    assert!(tx.fetch(&mut db, items, &2).unwrap().is_none());
    let mut next = tx.fetch(&mut db, items, &1).unwrap().unwrap();
    assert_eq!(next, item(1, 0, 10));
    next.value = 11;
    tx.replace(&mut db, items, &1, next.clone()).unwrap();
    assert_eq!(tx.fetch(&mut db, items, &1).unwrap().unwrap().value, 11);
    next.id = 2;
    assert!(matches!(
        tx.replace(&mut db, items, &1, next),
        Err(Error::PrimaryKeyChanged { table: "items" })
    ));
    tx.commit(&mut db).unwrap();
    assert_eq!(now(&mut db, items, 1), Some(11));

    let tx = db.begin();
    let next = tx.fetch(&mut db, items, &1).unwrap().unwrap();
    set(&mut db, items, 1, 12);
    assert!(matches!(
        tx.replace(&mut db, items, &1, next),
        Err(Error::WriteConflict { table: "items" })
    ));
    tx.abort(&mut db);
    assert_eq!(now(&mut db, items, 1), Some(12));
}

// --- housekeeping -------------------------------------------------------------

#[test]
fn registering_a_type_twice_gives_the_same_table() {
    let (mut db, items) = open(&[item(1, 0, 10)]);
    let again = db.register(RecordType(0), "items", vec![]).unwrap();
    assert_eq!(again.id, items.id);
    assert_eq!(again.of, items.of);
    assert_eq!(again.name, "items");
    assert_eq!(now(&mut db, again, 1), Some(10));
    // The indexes are those of the first time.
    assert!(db.has_index(again, tags()));
}

#[test]
fn two_types_have_two_tables_though_they_share_a_name() {
    let (mut db, items) = open(&[item(1, 0, 10)]);
    let other = db.register(RecordType(1), "items", vec![]).unwrap();
    assert_ne!(other.id, items.id);
    assert_eq!(now(&mut db, items, 1), Some(10));
    assert_eq!(now(&mut db, other, 1), None);
    commit(&mut db, |tx, db| tx.insert(db, other, item(1, 0, 20)));
    assert_eq!(now(&mut db, items, 1), Some(10));
    assert_eq!(now(&mut db, other, 1), Some(20));
    // Neither is the other's.
    let mixed = TableRef { of: items.of, ..other };
    let tx = db.begin();
    let err = tx.scan(&mut db, mixed).unwrap_err();
    assert!(matches!(err, Error::TableNotRegistered { table: "items" }));
}

#[test]
fn an_index_is_known_by_its_place_and_name() {
    let (mut db, items) = open(&[]);
    let other = db
        .register(RecordType(1), "others", vec![IndexDesc { name: "code", unique: false }])
        .unwrap();
    assert!(db.has_index(items, tags()));
    assert!(db.has_index(items, codes()));
    assert!(!db.has_index(other, tags()), "another index stands there");
    assert!(!db.has_index(other, codes()), "none stands there");
    assert!(db.has_index(other, Index::<Item, String>::new(0, "code")));
}

#[test]
fn a_transaction_held_open_pins_the_watermark() {
    let (mut db, items) = open(&[item(1, 0, 10)]);
    let held = db.begin();
    let pinned = db.stats().watermark;
    assert_eq!(pinned, held.snapshot());
    assert_eq!(db.stats().active_transactions, 1);
    for v in 0..10 {
        set(&mut db, items, 1, v);
    }
    assert_eq!(db.stats().watermark, pinned);
    held.abort(&mut db);
    assert_eq!(db.stats().active_transactions, 0);
    assert!(db.stats().watermark > pinned);
}

#[test]
fn ids_are_never_given_twice_and_snapshots_follow_the_commits() {
    let (mut db, items) = open(&[item(1, 0, 10)]);
    let a = db.begin();
    let b = db.begin_on::<Snapshot>(3);
    assert_ne!(a.id(), b.id());
    assert_eq!(a.snapshot(), b.snapshot());
    set(&mut db, items, 1, 11);
    let c = db.begin();
    assert_eq!(c.snapshot(), Timestamp(a.snapshot().0 + 1));
}

#[test]
fn pruning_and_sweeping_change_nothing_anybody_sees() {
    let (mut db, items) = open(&[item(1, 0, 0), item(2, 0, 77)]);
    for v in 0..300 {
        set(&mut db, items, 1, v);
    }
    let held = db.begin();
    for v in 300..9000 {
        set(&mut db, items, 1, v);
    }
    assert_eq!(value(&held, &mut db, items, 1), Some(299));
    assert_eq!(value(&held, &mut db, items, 2), Some(77));
    held.commit(&mut db).unwrap();
    assert_eq!(now(&mut db, items, 1), Some(8999));
    assert_eq!(now(&mut db, items, 2), Some(77));
}

#[test]
fn compaction_gives_empty_slots_back_and_keeps_every_record() {
    let (mut db, items) = open(&[item(1, 0, 10), item(2, 0, 20)]);
    // Inserts that were given up leave their slots behind.
    let doomed = db.begin();
    for id in 100..105 {
        doomed.insert(&mut db, items, item(id, 0, 0)).unwrap();
    }
    doomed.abort(&mut db);
    assert_eq!(db.compact(), 5);
    assert_eq!(db.compact(), 0);
    assert_eq!(now(&mut db, items, 1), Some(10));
    assert_eq!(now(&mut db, items, 2), Some(20));
    assert_eq!(now(&mut db, items, 100), None);
    commit(&mut db, |tx, db| tx.insert(db, items, item(100, 0, 1)));
    assert_eq!(now(&mut db, items, 100), Some(1));
}

#[test]
fn a_deleted_record_is_not_forgotten_before_it_is_pruned() {
    let (mut db, items) = open(&[item(1, 0, 10)]);
    commit(&mut db, |tx, db| tx.delete(db, items, &1).map(|_| ()));
    assert_eq!(db.compact(), 0);
    assert_eq!(now(&mut db, items, 1), None);
}
