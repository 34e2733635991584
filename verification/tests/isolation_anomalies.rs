//! The standard anomaly suite, asserted *present or absent per level*.
//!
//! A level that forbids too much is as wrong as one that forbids too little, so
//! each anomaly is tested in both directions: it must occur at the levels that
//! permit it and must not occur at the levels that do not.

use std::collections::HashMap;
use std::sync::atomic::{AtomicUsize, Ordering};
use std::sync::Arc;

use mvcc::filter::Bound;
use mvcc::schema::{Encodable, IndexDesc, IndexKey, RecordType, TableRef};
use mvcc::{
    Config, Database, Error, Index, IsolationLevel, ReadCommitted, RepeatableRead, Result,
    Serializable, Snapshot, Transaction, Versioned,
};

#[derive(Clone, Debug, PartialEq)]
struct Item {
    id: u64,
    tag: String,
    value: i64,
}

impl Versioned for Item {
    type Key = u64;
    type Predicate = Arc<dyn Fn(&Item) -> bool>;

    fn key(&self) -> u64 {
        self.id
    }

    fn key_bytes(&self) -> IndexKey {
        self.id.encode()
    }

    fn index_key(&self, _position: usize) -> IndexKey {
        self.tag.encode()
    }

    fn satisfies(&self, predicate: &Self::Predicate) -> bool {
        predicate(self)
    }
}

fn tag_index() -> Index<Item, String> {
    Index::new(0, "tag")
}

fn red() -> (Bound<String>, Bound<String>) {
    (Bound::Included("red".to_string()), Bound::Included("red".to_string()))
}

/// Run `body` in a transaction of its own and commit it.
fn run<T: Versioned, R>(
    db: &mut Database<T>,
    body: impl FnOnce(&Transaction<Snapshot>, &mut Database<T>) -> Result<R>,
) -> Result<R> {
    let tx = db.begin();
    match body(&tx, db) {
        Ok(r) => {
            tx.commit(db)?;
            Ok(r)
        }
        Err(e) => {
            tx.abort(db);
            Err(e)
        }
    }
}

fn db_with(items: &[(u64, &str, i64)]) -> Result<(Database<Item>, TableRef)> {
    let mut db = Database::open(Config::in_memory())?;
    let table = db.register(
        RecordType(0),
        "items",
        vec![IndexDesc { name: "tag", unique: false }],
    )?;
    run(&mut db, |tx, db| {
        for (id, tag, value) in items {
            tx.insert(db, table, Item { id: *id, tag: (*tag).into(), value: *value })?;
        }
        Ok(())
    })?;
    Ok((db, table))
}

/// The value of row `id` as `tx` sees it.
fn value<I: IsolationLevel>(
    tx: &Transaction<I>,
    db: &mut Database<Item>,
    table: TableRef,
    id: u64,
) -> Result<i64> {
    Ok(tx.get(db, table, &id)?.unwrap().value)
}

/// The value of row `id` as a transaction that begins now sees it.
fn current(db: &mut Database<Item>, table: TableRef, id: u64) -> Result<i64> {
    run(db, |tx, db| value(tx, db, table, id))
}

#[test]
fn isolation_anomalies_dirty_reads_are_impossible_at_every_level() -> Result<()> {
    let (mut db, items) = db_with(&[(1, "a", 10)])?;

    let writer = db.begin();
    writer.update(&mut db, items, &1, |i| i.value = 999)?;

    // The write is installed but uncommitted. Nobody else may see it.
    let rc = db.begin_with::<ReadCommitted>();
    let si = db.begin_with::<Snapshot>();
    let ser = db.begin_with::<Serializable>();
    for observed in [
        value(&rc, &mut db, items, 1)?,
        value(&si, &mut db, items, 1)?,
        value(&ser, &mut db, items, 1)?,
    ] {
        assert_eq!(observed, 10, "read uncommitted data");
    }

    writer.abort(&mut db);
    assert_eq!(current(&mut db, items, 1)?, 10, "abort must roll back");
    Ok(())
}

#[test]
fn isolation_anomalies_a_transaction_sees_its_own_writes() -> Result<()> {
    let (mut db, items) = db_with(&[(1, "a", 10)])?;
    let tx = db.begin();
    tx.update(&mut db, items, &1, |i| i.value = 42)?;
    assert_eq!(value(&tx, &mut db, items, 1)?, 42);
    tx.commit(&mut db)
}

#[test]
fn isolation_anomalies_non_repeatable_read_occurs_only_at_read_committed() -> Result<()> {
    // Permitted at ReadCommitted.
    let (mut db, items) = db_with(&[(1, "a", 10)])?;
    let rc = db.begin_with::<ReadCommitted>();
    assert_eq!(value(&rc, &mut db, items, 1)?, 10);
    run(&mut db, |tx, db| tx.update(db, items, &1, |i| i.value = 20))?;
    assert_eq!(value(&rc, &mut db, items, 1)?, 20, "read committed should see it");

    // Forbidden at Snapshot.
    let (mut db, items) = db_with(&[(1, "a", 10)])?;
    let si = db.begin_with::<Snapshot>();
    assert_eq!(value(&si, &mut db, items, 1)?, 10);
    run(&mut db, |tx, db| tx.update(db, items, &1, |i| i.value = 20))?;
    assert_eq!(value(&si, &mut db, items, 1)?, 10, "snapshot must be stable");
    Ok(())
}

#[test]
fn isolation_anomalies_phantoms_do_not_appear_under_snapshot_isolation() -> Result<()> {
    let (mut db, items) = db_with(&[(1, "a", 10)])?;
    let tx = db.begin_with::<Snapshot>();
    assert_eq!(tx.scan(&mut db, items)?.len(), 1);

    run(&mut db, |t, db| {
        t.insert(db, items, Item { id: 2, tag: "a".into(), value: 20 })
    })?;

    assert_eq!(tx.scan(&mut db, items)?.len(), 1, "a phantom row appeared");
    let fresh = db.begin();
    assert_eq!(
        fresh.scan(&mut db, items)?.len(),
        2,
        "a new transaction should see it"
    );
    Ok(())
}

#[test]
fn isolation_anomalies_lost_update_is_prevented_by_first_committer_wins() -> Result<()> {
    let (mut db, items) = db_with(&[(1, "a", 100)])?;

    let first = db.begin_with::<Snapshot>();
    let second = db.begin_with::<Snapshot>();

    first.update(&mut db, items, &1, |i| i.value += 10)?;
    first.commit(&mut db)?;

    let err = second
        .update(&mut db, items, &1, |i| i.value += 10)
        .expect_err("the stale write must be rejected");
    assert!(err.is_retriable());

    assert_eq!(current(&mut db, items, 1)?, 110);
    Ok(())
}

#[test]
fn isolation_anomalies_write_skew_occurs_under_snapshot_isolation() -> Result<()> {
    // Both rows are non-zero; each transaction zeroes a different one after
    // checking that the *other* is non-zero. Neither writes what the other
    // wrote, so no write-write conflict catches them.
    let (mut db, items) = db_with(&[(1, "a", 1), (2, "a", 1)])?;

    let t1 = db.begin_with::<Snapshot>();
    let t2 = db.begin_with::<Snapshot>();

    assert_eq!(value(&t1, &mut db, items, 2)?, 1);
    assert_eq!(value(&t2, &mut db, items, 1)?, 1);

    t1.update(&mut db, items, &1, |i| i.value = 0)?;
    t2.update(&mut db, items, &2, |i| i.value = 0)?;
    t1.commit(&mut db)?;
    t2.commit(&mut db)?;

    let sum = current(&mut db, items, 1)? + current(&mut db, items, 2)?;
    assert_eq!(
        sum, 0,
        "this is the anomaly Snapshot is documented to permit"
    );
    Ok(())
}

#[test]
fn isolation_anomalies_write_skew_is_prevented_under_serializable() -> Result<()> {
    let (mut db, items) = db_with(&[(1, "a", 1), (2, "a", 1)])?;

    let t1 = db.begin_with::<Serializable>();
    let t2 = db.begin_with::<Serializable>();

    assert_eq!(value(&t1, &mut db, items, 2)?, 1);
    assert_eq!(value(&t2, &mut db, items, 1)?, 1);

    t1.update(&mut db, items, &1, |i| i.value = 0)?;
    t2.update(&mut db, items, &2, |i| i.value = 0)?;

    t1.commit(&mut db)?;
    let err = t2.commit(&mut db).expect_err("t2 read a row t1 changed");
    assert!(err.is_retriable());

    let sum = current(&mut db, items, 1)? + current(&mut db, items, 2)?;
    assert_eq!(sum, 1, "the invariant must hold");
    Ok(())
}

#[test]
fn isolation_anomalies_serializable_read_modify_write_does_not_abort_itself() -> Result<()> {
    // Commit validation re-reads the read set, and must not see the
    // transaction's own in-flight writes when it does.
    let (mut db, items) = db_with(&[(1, "a", 5)])?;
    let tx = db.begin_with::<Serializable>();
    let seen = value(&tx, &mut db, items, 1)?;
    tx.update(&mut db, items, &1, |i| i.value = seen + 1)?;
    tx.commit(&mut db)?;
    assert_eq!(current(&mut db, items, 1)?, 6);
    Ok(())
}

#[test]
fn read_only_serializable_transactions_never_abort() -> Result<()> {
    // A transaction that wrote nothing must not be aborted just because
    // something it read was concurrently updated.
    let (mut db, items) = db_with(&[(1, "a", 10), (2, "a", 20)])?;
    let reader = db.begin_with::<Serializable>();

    assert_eq!(value(&reader, &mut db, items, 1)?, 10);
    assert_eq!(reader.scan(&mut db, items)?.len(), 2);

    // Every row the reader touched is overwritten, twice over.
    run(&mut db, |tx, db| tx.update(db, items, &1, |i| i.value = 999))?;
    run(&mut db, |tx, db| tx.update(db, items, &2, |i| i.value = 888))?;

    // Still a stable snapshot, and still commits.
    assert_eq!(value(&reader, &mut db, items, 1)?, 10);
    reader.commit(&mut db)?;

    Ok(())
}

#[test]
fn an_outgoing_edge_alone_does_not_abort() -> Result<()> {
    // T reads row 1, a concurrent transaction overwrites row 1, and T then
    // writes row 2 — which nobody has read. T has an outgoing conflict and no
    // incoming one, so it sits in no cycle: order T before the other
    // transaction and the schedule is serial.
    let (mut db, items) = db_with(&[(1, "a", 10), (2, "a", 20)])?;

    let t = db.begin_with::<Serializable>();
    assert_eq!(value(&t, &mut db, items, 1)?, 10);

    run(&mut db, |tx, db| tx.update(db, items, &1, |i| i.value = 999))?;

    t.update(&mut db, items, &2, |i| i.value = 2)?;
    t.commit(&mut db)?;

    assert_eq!(current(&mut db, items, 1)?, 999);
    assert_eq!(current(&mut db, items, 2)?, 2);
    Ok(())
}

#[test]
fn an_incoming_edge_alone_does_not_abort() -> Result<()> {
    // The mirror image: a transaction writes a row that a concurrent
    // transaction read, but nothing it read was overwritten. Incoming conflict
    // only, so no cycle.
    let (mut db, items) = db_with(&[(1, "a", 10), (2, "a", 20)])?;

    let reader = db.begin_with::<Serializable>();
    assert_eq!(value(&reader, &mut db, items, 1)?, 10);

    let writer = db.begin_with::<Serializable>();
    writer.update(&mut db, items, &1, |i| i.value = 11)?;
    writer.commit(&mut db)?;

    reader.commit(&mut db)?;
    Ok(())
}

#[test]
fn both_edges_together_abort() -> Result<()> {
    // Add the second conflict to `an_outgoing_edge_alone_does_not_abort` and the
    // same transaction must now fail: someone read what it wrote, and someone
    // overwrote what it read.
    let (mut db, items) = db_with(&[(1, "a", 10), (2, "a", 20)])?;

    // `peer` reads row 2, which becomes T's incoming conflict once T writes it.
    let peer = db.begin_with::<Serializable>();
    assert_eq!(value(&peer, &mut db, items, 2)?, 20);

    let t = db.begin_with::<Serializable>();
    assert_eq!(value(&t, &mut db, items, 1)?, 10);

    // T's outgoing conflict: row 1 is overwritten under it, by a transaction at
    // *snapshot* isolation, so its version names no writer. T must still notice
    // the change — "nobody to blame" is not "nothing happened".
    run(&mut db, |tx, db| tx.update(db, items, &1, |i| i.value = 999))?;

    t.update(&mut db, items, &2, |i| i.value = 2)?;

    let err = t
        .commit(&mut db)
        .expect_err("in + out is a dangerous structure");
    assert!(matches!(err, Error::SerializationFailure), "{}", err.message());
    peer.abort(&mut db);
    Ok(())
}

#[test]
fn isolation_anomalies_a_dropped_transaction_rolls_back() -> Result<()> {
    let (mut db, items) = db_with(&[(1, "a", 10)])?;
    {
        let tx = db.begin();
        tx.update(&mut db, items, &1, |i| i.value = 999)?;
        // No commit: the transaction is given up here.
        tx.abort(&mut db);
    }
    assert_eq!(current(&mut db, items, 1)?, 10);
    Ok(())
}

#[test]
fn isolation_anomalies_deletes_are_invisible_to_older_snapshots() -> Result<()> {
    let (mut db, items) = db_with(&[(1, "a", 10)])?;
    let old_reader = db.begin_with::<Snapshot>();

    run(&mut db, |tx, db| tx.delete(db, items, &1))?;

    assert!(
        old_reader.get(&mut db, items, &1)?.is_some(),
        "the old snapshot must still see it"
    );
    let fresh = db.begin();
    assert!(
        fresh.get(&mut db, items, &1)?.is_none(),
        "a new transaction must not"
    );
    Ok(())
}

/// A record with a unique index.
#[derive(Clone, Debug)]
struct Member {
    id: u64,
    email: String,
}

impl Versioned for Member {
    type Key = u64;
    type Predicate = Arc<dyn Fn(&Member) -> bool>;

    fn key(&self) -> u64 {
        self.id
    }

    fn key_bytes(&self) -> IndexKey {
        self.id.encode()
    }

    fn index_key(&self, _position: usize) -> IndexKey {
        self.email.encode()
    }

    fn satisfies(&self, predicate: &Self::Predicate) -> bool {
        predicate(self)
    }
}

fn member(id: u64, email: &str) -> Member {
    Member { id, email: email.into() }
}

fn empty_db() -> Result<(Database<Member>, TableRef)> {
    let mut db = Database::open(Config::in_memory())?;
    let table = db.register(
        RecordType(0),
        "members",
        vec![IndexDesc { name: "email", unique: true }],
    )?;
    Ok((db, table))
}

fn holders_of(db: &mut Database<Member>, table: TableRef, email: &str) -> usize {
    let owned = email.to_string();
    run(db, |tx, db| {
        tx.scan_where(db, table, Arc::new(move |m: &Member| m.email == owned))
    })
    .expect("scan")
    .len()
}

#[test]
fn isolation_anomalies_unique_indexes_reject_duplicates_and_allow_reuse_after_delete() -> Result<()>
{
    let mut db: Database<Member> = Database::open(Config::in_memory())?;
    let users = db.register(
        RecordType(0),
        "users",
        vec![IndexDesc { name: "email", unique: true }],
    )?;
    run(&mut db, |tx, db| tx.insert(db, users, member(1, "a@example.com")))?;

    let tx = db.begin();
    assert!(tx.insert(&mut db, users, member(2, "a@example.com")).is_err());
    tx.abort(&mut db);

    run(&mut db, |tx, db| tx.delete(db, users, &1))?;
    run(&mut db, |tx, db| tx.insert(db, users, member(2, "a@example.com")))?;
    Ok(())
}

/// Two transactions in flight at once, each inserting a different primary key
/// with the same unique email. Neither can see the other's row — that is what
/// snapshot isolation is — so the check alone cannot catch this and the claim
/// has to.
fn overlapping_inserts_collide<I: IsolationLevel>() -> Result<()> {
    let (mut db, members) = empty_db()?;

    let a = db.begin_with::<I>();
    let b = db.begin_with::<I>();

    a.insert(&mut db, members, member(1, "dup@example.com"))?;
    let second = b.insert(&mut db, members, member(2, "dup@example.com"));

    assert!(
        matches!(second, Err(Error::WriteConflict { .. })),
        "{}: the second inserter must be turned away while the first is in \
         flight, got {second:?}",
        I::NAME
    );

    a.commit(&mut db)?;
    b.abort(&mut db);

    assert_eq!(
        holders_of(&mut db, members, "dup@example.com"),
        1,
        "{}: exactly one row may hold the key",
        I::NAME
    );
    Ok(())
}

#[test]
fn overlapping_inserts_collide_at_every_level() -> Result<()> {
    overlapping_inserts_collide::<ReadCommitted>()?;
    overlapping_inserts_collide::<RepeatableRead>()?;
    overlapping_inserts_collide::<Snapshot>()?;
    overlapping_inserts_collide::<Serializable>()
}

/// The other half: the winner has already committed, but the loser's snapshot
/// predates it. Checking uniqueness at that snapshot would report the key as
/// free, so the check reads the current committed state instead.
fn insert_after_someone_elses_commit_collides<I: IsolationLevel>() -> Result<()> {
    let (mut db, members) = empty_db()?;

    // Begins first, so its snapshot cannot include the insert below.
    let late = db.begin_with::<I>();
    run(&mut db, |tx, db| tx.insert(db, members, member(1, "dup@example.com")))?;

    let outcome = late.insert(&mut db, members, member(2, "dup@example.com"));
    assert!(
        matches!(outcome, Err(Error::DuplicateKey { .. })),
        "{}: the key is taken in the committed database, whatever this \
         transaction's snapshot shows, got {outcome:?}",
        I::NAME
    );
    late.abort(&mut db);

    assert_eq!(holders_of(&mut db, members, "dup@example.com"), 1, "{}", I::NAME);
    Ok(())
}

#[test]
fn insert_after_someone_elses_commit_collides_at_every_level() -> Result<()> {
    insert_after_someone_elses_commit_collides::<ReadCommitted>()?;
    insert_after_someone_elses_commit_collides::<RepeatableRead>()?;
    insert_after_someone_elses_commit_collides::<Snapshot>()?;
    insert_after_someone_elses_commit_collides::<Serializable>()
}

/// An update moving a row onto a key is the same collision as an insert taking
/// it, and goes through the same claim.
#[test]
fn overlapping_updates_onto_one_key_collide() -> Result<()> {
    let (mut db, members) = empty_db()?;
    run(&mut db, |tx, db| {
        tx.insert(db, members, member(1, "a@example.com"))?;
        tx.insert(db, members, member(2, "b@example.com"))?;
        Ok(())
    })?;

    let a = db.begin();
    let b = db.begin();

    assert!(a.update(&mut db, members, &1, |m| m.email = "c@example.com".into())?);
    let second = b.update(&mut db, members, &2, |m| m.email = "c@example.com".into());
    assert!(
        matches!(second, Err(Error::WriteConflict { .. })),
        "got {second:?}"
    );

    a.commit(&mut db)?;
    b.abort(&mut db);
    assert_eq!(holders_of(&mut db, members, "c@example.com"), 1);
    Ok(())
}

/// A claim is a reservation, not a grave. Everything a failed or abandoned
/// transaction claimed has to come back, or one bad insert would burn a key for
/// the life of the process.
#[test]
fn an_abandoned_claim_is_released() -> Result<()> {
    let (mut db, members) = empty_db()?;

    let doomed = db.begin();
    doomed.insert(&mut db, members, member(1, "free@example.com"))?;
    doomed.abort(&mut db);

    run(&mut db, |tx, db| tx.insert(db, members, member(2, "free@example.com")))?;
    assert_eq!(holders_of(&mut db, members, "free@example.com"), 1);

    // Also when the transaction survives the failure: a rejected insert must not
    // leave the key it was refused holding a claim.
    let rejected = db.begin();
    assert!(rejected
        .insert(&mut db, members, member(3, "free@example.com"))
        .is_err());
    rejected.abort(&mut db);

    run(&mut db, |tx, db| tx.delete(db, members, &2))?;
    run(&mut db, |tx, db| tx.insert(db, members, member(4, "free@example.com")))?;
    assert_eq!(holders_of(&mut db, members, "free@example.com"), 1);
    Ok(())
}

/// One transaction may take a key, release it by deleting the row, and take it
/// again — the claim is per transaction, not per statement, so its own second
/// write must not be turned away as a conflict with itself.
#[test]
fn a_transaction_does_not_collide_with_itself() -> Result<()> {
    let (mut db, members) = empty_db()?;
    run(&mut db, |tx, db| {
        tx.insert(db, members, member(1, "self@example.com"))?;
        assert!(matches!(
            tx.insert(db, members, member(2, "self@example.com")),
            Err(Error::DuplicateKey { .. })
        ));
        tx.delete(db, members, &1)?;
        tx.insert(db, members, member(2, "self@example.com"))
    })?;
    assert_eq!(holders_of(&mut db, members, "self@example.com"), 1);
    Ok(())
}

/// The primary key is a unique constraint too, also at `ReadCommitted`, which
/// has no first-committer-wins check to fall back on.
fn insert_over_a_committed_primary_key_fails<I: IsolationLevel>() -> Result<()> {
    let (mut db, members) = empty_db()?;

    let late = db.begin_with::<I>();
    run(&mut db, |tx, db| tx.insert(db, members, member(7, "first@example.com")))?;

    let outcome = late.insert(&mut db, members, member(7, "second@example.com"));
    assert!(
        outcome.is_err(),
        "{}: inserting over a committed primary key must fail, got \
         {outcome:?}",
        I::NAME
    );
    late.abort(&mut db);

    let check = db.begin();
    assert_eq!(
        check.get(&mut db, members, &7)?.map(|m| m.email.clone()),
        Some("first@example.com".to_string()),
        "{}: and must not have overwritten it",
        I::NAME
    );
    Ok(())
}

/// A deleted key is free again. A tombstone is a version like any other, so "the
/// slot holds a live record" is not the same question as "the slot exists".
#[test]
fn a_deleted_primary_key_can_be_reused() -> Result<()> {
    let (mut db, members) = empty_db()?;

    run(&mut db, |tx, db| tx.insert(db, members, member(1, "first@example.com")))?;
    run(&mut db, |tx, db| tx.delete(db, members, &1))?;
    run(&mut db, |tx, db| tx.insert(db, members, member(1, "second@example.com")))?;

    // Including within a single transaction, where the tombstone the re-insert
    // has to see past is the transaction's own uncommitted one.
    run(&mut db, |tx, db| {
        tx.delete(db, members, &1)?;
        tx.insert(db, members, member(1, "third@example.com"))
    })?;

    let tx = db.begin();
    assert_eq!(
        tx.get(&mut db, members, &1)?.map(|m| m.email.clone()),
        Some("third@example.com".to_string())
    );
    Ok(())
}

#[test]
fn insert_over_a_committed_primary_key_fails_at_every_level() -> Result<()> {
    insert_over_a_committed_primary_key_fails::<ReadCommitted>()?;
    insert_over_a_committed_primary_key_fails::<RepeatableRead>()?;
    insert_over_a_committed_primary_key_fails::<Snapshot>()?;
    insert_over_a_committed_primary_key_fails::<Serializable>()
}

#[test]
fn isolation_anomalies_secondary_index_scans_respect_visibility() -> Result<()> {
    let (mut db, items) = db_with(&[(1, "red", 1), (2, "red", 2), (3, "blue", 3)])?;

    let reader = db.begin_with::<Snapshot>();
    let (lo, hi) = red();
    assert_eq!(
        reader.scan_index(&mut db, items, tag_index(), lo, hi)?.len(),
        2
    );

    // Move item 2 out of the "red" group.
    run(&mut db, |tx, db| tx.update(db, items, &2, |i| i.tag = "green".into()))?;

    // The old snapshot still sees two; a new transaction sees one. The stale
    // index entry for item 2 is filtered by the recheck, not by index cleanup.
    let (lo, hi) = red();
    assert_eq!(
        reader.scan_index(&mut db, items, tag_index(), lo, hi)?.len(),
        2
    );
    assert_eq!(reds(&mut db, items)?, 1);
    Ok(())
}

/// How many records are tagged red, as a transaction that begins now sees it.
fn reds(db: &mut Database<Item>, items: TableRef) -> Result<usize> {
    run(db, |tx, db| {
        let (lo, hi) = red();
        Ok(tx.scan_index(db, items, tag_index(), lo, hi)?.len())
    })
}

#[test]
fn index_entries_survive_updates_that_leave_the_key_alone() -> Result<()> {
    // Index maintenance skips any index whose key is unchanged from the version
    // being displaced. A row that lost its own index entry does not error, it
    // just stops being returned by scans that should find it.
    let (mut db, items) = db_with(&[(1, "red", 1), (2, "red", 2)])?;

    // An update touching only a non-indexed field takes the skip path.
    run(&mut db, |tx, db| tx.update(db, items, &1, |i| i.value += 10))?;
    assert_eq!(reds(&mut db, items)?, 2);

    // Repeatedly, so a stale entry cannot be masked by one fresh insert.
    for _ in 0..3 {
        run(&mut db, |tx, db| tx.update(db, items, &2, |i| i.value += 1))?;
    }
    assert_eq!(reds(&mut db, items)?, 2);

    // Out of the group and back: the return write does *not* skip, because the
    // version it displaces has key "green".
    run(&mut db, |tx, db| tx.update(db, items, &2, |i| i.tag = "green".into()))?;
    assert_eq!(reds(&mut db, items)?, 1);
    run(&mut db, |tx, db| tx.update(db, items, &2, |i| i.tag = "red".into()))?;
    assert_eq!(reds(&mut db, items)?, 2);

    // A delete installs a tombstone, so the write after it sees no previous
    // value and re-indexes rather than skipping.
    run(&mut db, |tx, db| tx.delete(db, items, &1))?;
    run(&mut db, |tx, db| {
        tx.insert(db, items, Item { id: 1, tag: "red".into(), value: 1 })
    })?;
    assert_eq!(reds(&mut db, items)?, 2);
    Ok(())
}

#[test]
fn isolation_anomalies_updating_the_primary_key_is_rejected() -> Result<()> {
    let (mut db, items) = db_with(&[(1, "a", 10)])?;
    let tx = db.begin();
    assert!(tx.update(&mut db, items, &1, |i| i.id = 2).is_err());
    Ok(())
}

#[derive(Clone, Debug)]
struct Session {
    id: u64,
    headers: HashMap<String, Vec<u8>>,
    started: std::time::Instant,
    handler: fn(u8) -> u8,
}

impl Versioned for Session {
    type Key = u64;
    type Predicate = ();

    fn key(&self) -> u64 {
        self.id
    }

    fn key_bytes(&self) -> IndexKey {
        self.id.encode()
    }

    fn index_key(&self, _position: usize) -> IndexKey {
        IndexKey(Vec::new())
    }

    fn satisfies(&self, _predicate: &()) -> bool {
        true
    }
}

#[test]
fn isolation_anomalies_fields_may_be_any_type_the_struct_itself_supports() -> Result<()> {
    // Nothing is serialised, so a field needs no trait of its own. A record can
    // hold whatever the struct as a whole can hold.
    let mut db: Database<Session> = Database::open(Config::in_memory())?;
    let sessions = db.register(RecordType(0), "sessions", vec![])?;
    run(&mut db, |tx, db| {
        tx.insert(
            db,
            sessions,
            Session {
                id: 1,
                headers: HashMap::from([("accept".to_string(), b"*/*".to_vec())]),
                started: std::time::Instant::now(),
                handler: |b| b + 1,
            },
        )
    })?;

    let tx = db.begin();
    let session = tx.get(&mut db, sessions, &1)?.expect("inserted");
    assert_eq!(session.headers["accept"], b"*/*");
    assert_eq!((session.handler)(1), 2);
    assert!(session.started.elapsed().as_secs() < 60);
    Ok(())
}

#[derive(Clone, Debug)]
struct Counted(Arc<AtomicUsize>);

impl Drop for Counted {
    fn drop(&mut self) {
        self.0.fetch_add(1, Ordering::Relaxed);
    }
}

#[derive(Clone, Debug)]
struct Row {
    id: u64,
    payload: Counted,
}

impl Versioned for Row {
    type Key = u64;
    type Predicate = ();

    fn key(&self) -> u64 {
        self.id
    }

    fn key_bytes(&self) -> IndexKey {
        self.id.encode()
    }

    fn index_key(&self, _position: usize) -> IndexKey {
        IndexKey(Vec::new())
    }

    fn satisfies(&self, _predicate: &()) -> bool {
        true
    }
}

/// Dropping a `Database` must free every version, not just the live ones.
#[test]
fn dropping_a_database_frees_every_version() -> Result<()> {
    let drops = Arc::new(AtomicUsize::new(0));

    {
        let mut db: Database<Row> = Database::open(Config::in_memory())?;
        let rows = db.register(RecordType(0), "tracked", vec![])?;

        // 100 rows, each updated twice, so each key carries a three-version
        // chain and only the head is reachable by a reader.
        run(&mut db, |tx, db| {
            for id in 0..100 {
                tx.insert(db, rows, Row { id, payload: Counted(Arc::clone(&drops)) })?;
            }
            Ok(())
        })?;
        for _ in 0..2 {
            run(&mut db, |tx, db| {
                for id in 0..100 {
                    tx.update(db, rows, &id, |r| r.payload = Counted(Arc::clone(&drops)))?;
                }
                Ok(())
            })?;
        }

        drops.store(0, Ordering::Relaxed);
    } // `db` dropped here

    // 300 versions: 100 keys x 3 versions each. Every one must be freed, not
    // just the 100 still at the head of their chain.
    assert_eq!(
        drops.load(Ordering::Relaxed),
        300,
        "versions leaked when the database was dropped"
    );
    Ok(())
}
