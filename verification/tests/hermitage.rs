//! Transcripts of the Hermitage suite, Martin Kleppmann's isolation-level test
//! suite, one function per anomaly. The SQL stands in the doc comments.
//!
//! # Results
//!
//! ✓ = prevented, — = possible (anomaly occurs)
//!
//! | level            | G0 | G1a | G1b | G1c | OTV | PMP | P4 | G-single | G2-item | G2 |
//! |:-----------------|:--:|:---:|:---:|:---:|:---:|:---:|:--:|:--------:|:-------:|:--:|
//! | `ReadCommitted`  | ✓  | ✓   | ✓   | ✓   | ✓   | —   | ✓* | —        | —       | —  |
//! | `RepeatableRead` | ✓  | ✓   | ✓   | ✓   | ✓   | ✓   | ✓  | ✓        | —       | —  |
//! | `Snapshot`       | ✓  | ✓   | ✓   | ✓   | ✓   | ✓   | ✓  | ✓        | —       | —  |
//! | `Serializable`   | ✓  | ✓   | ✓   | ✓   | ✓   | ✓   | ✓  | ✓        | ✓       | ✓  |
//!
//! Read-only transactions never abort at any level, including `Serializable`.
//!
//! `P4*` — SQL read committed permits lost update, because T2 blocks on the row
//! lock and then overwrites. Here a writer that finds a slot locked fails at once
//! with a write conflict, so wherever a transcript says BLOCKS, the test asserts
//! the conflict at that point and retries the transaction afterwards.

use std::sync::Arc;

use mvcc::schema::{Encodable, IndexKey, RecordType, TableRef};
use mvcc::{
    Config, Database, Error, IsolationLevel, ReadCommitted, RepeatableRead, Result, Serializable,
    Snapshot, Transaction, Versioned,
};

/// The fixture: `create table test (id int primary key, value int)` with rows
/// `(1, 10), (2, 20)`.
#[derive(Clone, Debug, PartialEq)]
struct Test {
    id: u64,
    value: i64,
}

impl Versioned for Test {
    type Key = u64;
    type Predicate = Arc<dyn Fn(&Test) -> bool>;

    fn key(&self) -> u64 {
        self.id
    }

    fn key_bytes(&self) -> IndexKey {
        self.id.encode()
    }

    fn index_key(&self, _position: usize) -> IndexKey {
        IndexKey(Vec::new())
    }

    fn satisfies(&self, predicate: &Self::Predicate) -> bool {
        predicate(self)
    }
}

/// A database and its one table.
struct Fixture {
    db: Database<Test>,
    table: TableRef,
}

impl Fixture {
    fn begin_with<I: IsolationLevel>(&mut self) -> Transaction<I> {
        self.db.begin_with::<I>()
    }

    fn get<I: IsolationLevel>(&mut self, tx: &Transaction<I>, id: u64) -> Result<Option<i64>> {
        Ok(tx.get(&mut self.db, self.table, &id)?.map(|r| r.value))
    }

    fn update<I: IsolationLevel>(
        &mut self,
        tx: &Transaction<I>,
        id: u64,
        f: impl FnOnce(&mut Test),
    ) -> Result<bool> {
        tx.update(&mut self.db, self.table, &id, f)
    }

    fn set<I: IsolationLevel>(&mut self, tx: &Transaction<I>, id: u64, value: i64) -> Result<bool> {
        self.update(tx, id, |r| r.value = value)
    }

    fn insert<I: IsolationLevel>(&mut self, tx: &Transaction<I>, id: u64, value: i64) -> Result<()> {
        tx.insert(&mut self.db, self.table, Test { id, value })
    }

    fn delete<I: IsolationLevel>(&mut self, tx: &Transaction<I>, id: u64) -> Result<bool> {
        tx.delete(&mut self.db, self.table, &id)
    }

    /// Set rows in a transaction of its own.
    fn commit_values(&mut self, rows: &[(u64, i64)]) -> Result<()> {
        let tx = self.db.begin();
        for (id, value) in rows {
            self.set(&tx, *id, *value)?;
        }
        tx.commit(&mut self.db)
    }

    /// Both rows, as a transaction that begins now sees them.
    fn both(&mut self) -> Result<(Option<i64>, Option<i64>)> {
        let tx = self.db.begin();
        let seen = (self.get(&tx, 1)?, self.get(&tx, 2)?);
        tx.commit(&mut self.db)?;
        Ok(seen)
    }
}

fn setup() -> Result<Fixture> {
    let mut db = Database::open(Config::in_memory())?;
    let table = db.register(RecordType(0), "test", vec![])?;
    let mut f = Fixture { db, table };
    let tx = f.db.begin();
    f.insert(&tx, 1, 10)?;
    f.insert(&tx, 2, 20)?;
    tx.commit(&mut f.db)?;
    Ok(f)
}

/// `select * from test where <predicate>`, as `(id, value)` pairs in key order.
fn matching<I: IsolationLevel>(
    f: &mut Fixture,
    tx: &Transaction<I>,
    predicate: impl Fn(i64) -> bool,
) -> Result<Vec<(u64, i64)>> {
    Ok(tx
        .scan(&mut f.db, f.table)?
        .iter()
        .filter(|r| predicate(r.value))
        .map(|r| (r.id, r.value))
        .collect())
}

fn is_write_conflict(e: &Error) -> bool {
    matches!(e, Error::WriteConflict { .. })
}

// ===========================================================================
// G0 — Write Cycles (dirty writes)
// ===========================================================================

/// ```sql
/// update test set value = 11 where id = 1; -- T1
/// update test set value = 12 where id = 1; -- T2, BLOCKS
/// update test set value = 21 where id = 2; -- T1
/// commit; -- T1. This unblocks T2
/// update test set value = 22 where id = 2; -- T2
/// commit; -- T2
/// select * from test; -- either. Shows 1 => 12, 2 => 22
/// ```
fn g0<I: IsolationLevel>() -> Result<()> {
    let mut f = setup()?;
    let t1 = f.begin_with::<I>();
    let t2 = f.begin_with::<I>();

    f.set(&t1, 1, 11)?;

    // BLOCKS in the transcript; a write conflict here.
    let blocked = f.set(&t2, 1, 12).unwrap_err();
    assert!(is_write_conflict(&blocked), "{}: {}", I::NAME, blocked.message());
    t2.abort(&mut f.db);

    f.set(&t1, 2, 21)?;
    t1.commit(&mut f.db)?;

    // "This unblocks T2" — the retry.
    let t2 = f.begin_with::<I>();
    f.set(&t2, 1, 12)?;
    f.set(&t2, 2, 22)?;
    t2.commit(&mut f.db)?;

    let check = f.db.begin();
    assert_eq!(f.get(&check, 1)?, Some(12), "{}", I::NAME);
    assert_eq!(f.get(&check, 2)?, Some(22), "{}", I::NAME);
    Ok(())
}

#[test]
fn g0_write_cycles_prevented_at_every_level() -> Result<()> {
    g0::<ReadCommitted>()?;
    g0::<RepeatableRead>()?;
    g0::<Snapshot>()?;
    g0::<Serializable>()
}

// ===========================================================================
// G1a — Aborted Reads
// ===========================================================================

/// ```sql
/// update test set value = 101 where id = 1; -- T1
/// select * from test; -- T2. Still shows 1 => 10
/// abort;  -- T1
/// select * from test; -- T2. Still shows 1 => 10
/// commit; -- T2
/// ```
fn g1a<I: IsolationLevel>() -> Result<()> {
    let mut f = setup()?;
    let t1 = f.begin_with::<I>();
    let t2 = f.begin_with::<I>();

    f.set(&t1, 1, 101)?;

    assert_eq!(
        f.get(&t2, 1)?,
        Some(10),
        "{}: read uncommitted",
        I::NAME
    );

    t1.abort(&mut f.db);

    assert_eq!(f.get(&t2, 1)?, Some(10), "{}: read aborted", I::NAME);
    t2.commit(&mut f.db)
}

#[test]
fn g1a_aborted_reads_prevented_at_every_level() -> Result<()> {
    g1a::<ReadCommitted>()?;
    g1a::<RepeatableRead>()?;
    g1a::<Snapshot>()?;
    g1a::<Serializable>()
}

// ===========================================================================
// G1b — Intermediate Reads
// ===========================================================================

/// ```sql
/// update test set value = 101 where id = 1; -- T1
/// select * from test; -- T2. Still shows 1 => 10
/// update test set value = 11 where id = 1; -- T1
/// commit; -- T1
/// select * from test; -- T2. Now shows 1 => 11   (read committed)
/// commit; -- T2
/// ```
///
/// `after_commit` is what T2's second read must return: 11 for `ReadCommitted`,
/// which refreshes its snapshot per statement, and 10 for the levels that hold
/// one snapshot. Neither may ever be 101 — that is the anomaly.
fn g1b<I: IsolationLevel>(after_commit: i64) -> Result<()> {
    let mut f = setup()?;
    let t1 = f.begin_with::<I>();
    let t2 = f.begin_with::<I>();

    f.set(&t1, 1, 101)?;
    assert_eq!(f.get(&t2, 1)?, Some(10), "{}", I::NAME);

    f.set(&t1, 1, 11)?;
    t1.commit(&mut f.db)?;

    let seen = f.get(&t2, 1)?;
    assert_ne!(seen, Some(101), "{}: saw the intermediate value", I::NAME);
    assert_eq!(seen, Some(after_commit), "{}", I::NAME);
    t2.commit(&mut f.db)
}

#[test]
fn g1b_intermediate_reads_prevented_at_every_level() -> Result<()> {
    g1b::<ReadCommitted>(11)?;
    g1b::<RepeatableRead>(10)?;
    g1b::<Snapshot>(10)?;
    g1b::<Serializable>(10)
}

// ===========================================================================
// G1c — Circular Information Flow
// ===========================================================================

/// ```sql
/// update test set value = 11 where id = 1; -- T1
/// update test set value = 22 where id = 2; -- T2
/// select * from test where id = 2; -- T1. Still shows 2 => 20
/// select * from test where id = 1; -- T2. Still shows 1 => 10
/// commit; -- T1
/// commit; -- T2
/// ```
fn g1c<I: IsolationLevel>() -> Result<()> {
    let mut f = setup()?;
    let t1 = f.begin_with::<I>();
    let t2 = f.begin_with::<I>();

    f.set(&t1, 1, 11)?;
    f.set(&t2, 2, 22)?;

    assert_eq!(f.get(&t1, 2)?, Some(20), "{}: T1 saw T2", I::NAME);
    assert_eq!(f.get(&t2, 1)?, Some(10), "{}: T2 saw T1", I::NAME);

    t1.commit(&mut f.db)?;
    let outcome = t2.commit(&mut f.db);

    // G1c asks only that neither transaction reads the other's uncommitted
    // write, which is asserted above and holds at every level.
    //
    // Whether both then *commit* is a separate question, and at `Serializable`
    // the answer is no. Written out, this interleaving is:
    //
    //   T1: W(1) R(2)        T2: W(2) R(1)
    //
    // T1 read row 2, which T2 overwrites; T2 read row 1, which T1 overwrote.
    // Two rw-antidependencies pointing at each other — the same cycle as
    // G2-item, wearing different clothes. Aborting one is correct, not a false
    // positive.
    if I::VALIDATES_READS {
        let err = outcome.expect_err("serializable must break the rw cycle");
        assert!(matches!(err, Error::SerializationFailure), "{}", err.message());
    } else {
        outcome?;
    }
    Ok(())
}

#[test]
fn g1c_circular_information_flow_prevented_at_every_level() -> Result<()> {
    g1c::<ReadCommitted>()?;
    g1c::<RepeatableRead>()?;
    g1c::<Snapshot>()?;
    g1c::<Serializable>()
}

// ===========================================================================
// OTV — Observed Transaction Vanishes
// ===========================================================================

/// ```sql
/// update test set value = 11 where id = 1; -- T1
/// update test set value = 19 where id = 2; -- T1
/// update test set value = 12 where id = 1; -- T2. BLOCKS
/// commit; -- T1. This unblocks T2
/// select * from test where id = 1; -- T3. Shows 1 => 11
/// update test set value = 18 where id = 2; -- T2
/// select * from test where id = 2; -- T3. Shows 2 => 19
/// commit; -- T2
/// select * from test where id = 2; -- T3. Shows 2 => 18
/// select * from test where id = 1; -- T3. Shows 1 => 12
/// ```
///
/// The anomaly would be T3 observing *half* of T1 — id 1 already at 11 while id
/// 2 is still 20. T3 runs at `ReadCommitted` precisely so it can see committed
/// transactions arrive; the requirement is that each one arrives whole.
#[test]
fn otv_observed_transaction_vanishes_prevented() -> Result<()> {
    let mut f = setup()?;
    let t1 = f.begin_with::<ReadCommitted>();
    let t2 = f.begin_with::<ReadCommitted>();
    let t3 = f.begin_with::<ReadCommitted>();

    f.set(&t1, 1, 11)?;
    f.set(&t1, 2, 19)?;

    let blocked = f.set(&t2, 1, 12).unwrap_err();
    assert!(is_write_conflict(&blocked));
    t2.abort(&mut f.db);

    // T3 sees none of T1 while T1 is in flight — not a half-applied T1.
    assert_eq!(
        (f.get(&t3, 1)?, f.get(&t3, 2)?),
        (Some(10), Some(20))
    );

    t1.commit(&mut f.db)?;

    // Now T3 sees all of T1.
    assert_eq!(
        (f.get(&t3, 1)?, f.get(&t3, 2)?),
        (Some(11), Some(19)),
        "T3 observed a partially applied T1"
    );

    let t2 = f.begin_with::<ReadCommitted>();
    f.set(&t2, 1, 12)?;
    f.set(&t2, 2, 18)?;

    // T2 in flight: T3 still sees all of T1 and none of T2.
    assert_eq!(
        (f.get(&t3, 1)?, f.get(&t3, 2)?),
        (Some(11), Some(19))
    );

    t2.commit(&mut f.db)?;

    assert_eq!(
        (f.get(&t3, 1)?, f.get(&t3, 2)?),
        (Some(12), Some(18)),
        "T3 observed a partially applied T2"
    );
    t3.commit(&mut f.db)
}

/// Under `Snapshot`, OTV cannot arise at all: T3 sees its own snapshot
/// throughout and neither T1 nor T2 ever becomes visible to it.
#[test]
fn otv_prevented_trivially_under_snapshot_isolation() -> Result<()> {
    let mut f = setup()?;
    let t3 = f.begin_with::<Snapshot>();

    f.commit_values(&[(1, 11), (2, 19)])?;

    assert_eq!(
        (f.get(&t3, 1)?, f.get(&t3, 2)?),
        (Some(10), Some(20))
    );
    t3.commit(&mut f.db)
}

// ===========================================================================
// PMP — Predicate-Many-Preceders
// ===========================================================================

/// ```sql
/// select * from test where value = 30; -- T1. Returns nothing
/// insert into test (id, value) values(3, 30); -- T2
/// commit; -- T2
/// select * from test where value % 3 = 0; -- T1. Still returns nothing (RR+)
/// commit; -- T1
/// ```
fn pmp<I: IsolationLevel>(sees_the_insert: bool) -> Result<()> {
    let mut f = setup()?;
    let t1 = f.begin_with::<I>();

    assert!(matching(&mut f, &t1, |v| v == 30)?.is_empty(), "{}", I::NAME);

    let t2 = f.db.begin();
    f.insert(&t2, 3, 30)?;
    t2.commit(&mut f.db)?;

    let found = matching(&mut f, &t1, |v| v % 3 == 0)?;
    if sees_the_insert {
        assert_eq!(found, vec![(3, 30)], "{}: should see the new row", I::NAME);
    } else {
        assert!(found.is_empty(), "{}: predicate-many-preceders", I::NAME);
    }
    t1.commit(&mut f.db)
}

#[test]
fn pmp_possible_at_read_committed_prevented_above() -> Result<()> {
    pmp::<ReadCommitted>(true)?;
    pmp::<RepeatableRead>(false)?;
    pmp::<Snapshot>(false)?;
    pmp::<Serializable>(false)
}

/// PMP for write predicates.
///
/// ```sql
/// update test set value = value + 10; -- T1
/// delete from test where value = 20;  -- T2, BLOCKS
/// commit; -- T1
/// -- read committed: T2's delete proceeds against the new state
/// -- repeatable read: "ERROR: could not serialize access due to concurrent update"
/// ```
/// `matches_20_after_t1` is what T2's `where value = 20` returns once T1 has
/// committed. T1 adds 10 to both rows, so `(1, 10), (2, 20)` becomes
/// `(1, 20), (2, 30)`:
///
/// - `ReadCommitted` re-reads and matches **row 1**, which qualifies only
///   because of T1's update — the anomaly known as "returns
///   1 => 20 (despite ostensibly having been deleted)".
/// - the snapshot levels keep T2's first snapshot, still see
///   `(1, 10), (2, 20)`, and match **row 2**.
///
/// Note that T2 is the *same* transaction throughout, as in the transcript. A
/// write that loses the first-updater-wins race returns `WriteConflict` without
/// installing anything and without killing the transaction, so T2 can carry on
/// and its snapshot is preserved — which is what makes the distinction above
/// observable.
fn pmp_write<I: IsolationLevel>(matches_20_after_t1: (u64, i64)) -> Result<()> {
    let mut f = setup()?;
    let t1 = f.begin_with::<I>();
    let t2 = f.begin_with::<I>();

    f.update(&t1, 1, |r| r.value += 10)?;
    f.update(&t1, 2, |r| r.value += 10)?;

    // T2's predicate matches the pre-T1 state: T1 is uncommitted.
    assert_eq!(
        matching(&mut f, &t2, |v| v == 20)?,
        vec![(2, 20)],
        "{}",
        I::NAME
    );

    // `delete from test where value = 20` — BLOCKS in the transcript, conflicts here.
    let blocked = f.delete(&t2, 2).unwrap_err();
    assert!(is_write_conflict(&blocked), "{}", I::NAME);

    t1.commit(&mut f.db)?; // "This unblocks T2"

    assert_eq!(
        matching(&mut f, &t2, |v| v == 20)?,
        vec![matches_20_after_t1],
        "{}",
        I::NAME
    );
    Ok(())
}

#[test]
fn pmp_write_predicates() -> Result<()> {
    // Read committed matches a row that qualifies only because of T1.
    pmp_write::<ReadCommitted>((1, 20))?;
    // The snapshot levels match the row that qualified all along.
    pmp_write::<RepeatableRead>((2, 20))?;
    pmp_write::<Snapshot>((2, 20))?;
    pmp_write::<Serializable>((2, 20))
}

// ===========================================================================
// P4 — Lost Update
// ===========================================================================

/// ```sql
/// select * from test where id = 1; -- T1
/// select * from test where id = 1; -- T2
/// update test set value = 11 where id = 1; -- T1
/// update test set value = 11 where id = 1; -- T2, BLOCKS
/// commit; -- T1. read committed: T1's update is overwritten
/// ```
///
/// SQL permits this at read committed because T2 blocks and then overwrites.
/// Here a write fails instead of blocking, so the update is never lost.
fn p4<I: IsolationLevel>() -> Result<()> {
    let mut f = setup()?;
    let t1 = f.begin_with::<I>();
    let t2 = f.begin_with::<I>();

    assert_eq!(f.get(&t1, 1)?, Some(10));
    assert_eq!(f.get(&t2, 1)?, Some(10));

    f.set(&t1, 1, 11)?;

    let blocked = f.set(&t2, 1, 11).unwrap_err();
    assert!(is_write_conflict(&blocked), "{}: {}", I::NAME, blocked.message());
    assert!(blocked.is_retriable(), "{}", I::NAME);

    t1.commit(&mut f.db)?;
    t2.abort(&mut f.db);

    assert_eq!(f.both()?.0, Some(11), "{}", I::NAME);
    Ok(())
}

#[test]
fn p4_lost_update_is_prevented_by_aborting_instead_of_blocking() -> Result<()> {
    p4::<ReadCommitted>()?;
    p4::<RepeatableRead>()?;
    p4::<Snapshot>()?;
    p4::<Serializable>()
}

/// The one lost-update shape that still gets through `ReadCommitted`.
///
/// T2 reads, T1 commits and *releases the slot lock*, then T2 writes a value
/// derived from its stale read. There is no lock to conflict on any more, so
/// only a snapshot check can catch it — which is exactly what
/// `FIRST_COMMITTER_WINS` is, and `ReadCommitted` is the one level that does
/// not set it.
#[test]
fn p4_lost_update_via_stale_write_is_possible_at_read_committed() -> Result<()> {
    // ReadCommitted: the increment computed from the stale read wins.
    let mut f = setup()?;
    let t2 = f.begin_with::<ReadCommitted>();
    let stale = f.get(&t2, 1)?.unwrap();

    f.commit_values(&[(1, 100)])?;

    f.set(&t2, 1, stale + 1)?;
    t2.commit(&mut f.db)?;

    assert_eq!(
        f.both()?.0,
        Some(11),
        "read committed lost the concurrent update to 100"
    );

    // Snapshot: first-committer-wins rejects the same write.
    let mut f = setup()?;
    let t2 = f.begin_with::<Snapshot>();
    let stale = f.get(&t2, 1)?.unwrap();

    f.commit_values(&[(1, 100)])?;

    let err = f.set(&t2, 1, stale + 1).unwrap_err();
    assert!(is_write_conflict(&err), "{}", err.message());
    Ok(())
}

// ===========================================================================
// G-single — Read Skew
// ===========================================================================

/// ```sql
/// select * from test where id = 1; -- T1. Shows 1 => 10
/// select * from test where id = 1; -- T2
/// select * from test where id = 2; -- T2
/// update test set value = 12 where id = 1; -- T2
/// update test set value = 18 where id = 2; -- T2
/// commit; -- T2
/// select * from test where id = 2; -- T1. Shows 2 => 18 (RC) or 2 => 20 (RR+)
/// commit; -- T1
/// ```
fn g_single<I: IsolationLevel>(t1_sees: i64) -> Result<()> {
    let mut f = setup()?;
    let t1 = f.begin_with::<I>();

    assert_eq!(f.get(&t1, 1)?, Some(10), "{}", I::NAME);

    f.commit_values(&[(1, 12), (2, 18)])?;

    assert_eq!(f.get(&t1, 2)?, Some(t1_sees), "{}: read skew", I::NAME);

    // T1 wrote nothing. Its snapshot is a prefix of the commit order, so
    // ordering it before T2 is a valid serial schedule and it commits at every
    // level — including Serializable, which skips validation for read-only
    // transactions. See the soundness note in `Transaction::commit`.
    t1.commit(&mut f.db)
}

#[test]
fn g_single_read_skew_possible_at_read_committed_prevented_above() -> Result<()> {
    g_single::<ReadCommitted>(18)?;
    g_single::<RepeatableRead>(20)?;
    g_single::<Snapshot>(20)?;
    g_single::<Serializable>(20)
}

/// G-single using predicate dependencies.
///
/// ```sql
/// select * from test where value % 5 = 0; -- T1
/// update test set value = 12 where value = 10; -- T2
/// commit; -- T2
/// select * from test where value % 3 = 0; -- T1. Returns nothing
/// commit; -- T1
/// ```
#[test]
fn g_single_predicate_read_skew_prevented_under_snapshot() -> Result<()> {
    let mut f = setup()?;
    let t1 = f.begin_with::<Snapshot>();

    assert_eq!(matching(&mut f, &t1, |v| v % 5 == 0)?, vec![(1, 10), (2, 20)]);

    f.commit_values(&[(1, 12)])?;

    assert!(
        matching(&mut f, &t1, |v| v % 3 == 0)?.is_empty(),
        "T1's snapshot should not contain 12"
    );
    t1.commit(&mut f.db)
}

/// G-single using a write predicate.
///
/// ```sql
/// select * from test where id = 1; -- T1. Shows 1 => 10
/// select * from test; -- T2
/// update test set value = 12 where id = 1; -- T2
/// update test set value = 18 where id = 2; -- T2
/// commit; -- T2
/// delete from test where value = 20; -- T1. "could not serialize access"
/// abort; -- T1
/// ```
#[test]
fn g_single_write_predicate_conflicts_under_snapshot() -> Result<()> {
    let mut f = setup()?;
    let t1 = f.begin_with::<Snapshot>();

    assert_eq!(f.get(&t1, 1)?, Some(10));

    f.commit_values(&[(1, 12), (2, 18)])?;

    // T1 still sees 2 => 20 and would delete it; the row has moved under it.
    assert_eq!(matching(&mut f, &t1, |v| v == 20)?, vec![(2, 20)]);
    let err = f.delete(&t1, 2).unwrap_err();
    assert!(is_write_conflict(&err), "{}", err.message());
    Ok(())
}

// ===========================================================================
// G2-item — Item Anti-dependency Cycles (write skew on disjoint read)
// ===========================================================================

/// ```sql
/// select * from test where id in (1,2); -- T1
/// select * from test where id in (1,2); -- T2
/// update test set value = 11 where id = 1; -- T1
/// update test set value = 21 where id = 2; -- T2
/// commit; -- T1
/// commit; -- T2. serializable: "could not serialize access due to
/// --                            read/write dependencies among transactions"
/// ```
fn g2_item<I: IsolationLevel>() -> Result<()> {
    let mut f = setup()?;
    let t1 = f.begin_with::<I>();
    let t2 = f.begin_with::<I>();

    for id in [1, 2] {
        f.get(&t1, id)?;
        f.get(&t2, id)?;
    }

    f.set(&t1, 1, 11)?;
    f.set(&t2, 2, 21)?;

    t1.commit(&mut f.db)?;
    let outcome = t2.commit(&mut f.db);

    if I::VALIDATES_READS {
        let err = outcome.expect_err("serializable must prevent write skew");
        assert!(matches!(err, Error::SerializationFailure), "{}", err.message());
        // The invariant "not both changed" holds.
        let check = f.db.begin();
        assert_eq!(
            (f.get(&check, 1)?, f.get(&check, 2)?),
            (Some(11), Some(20))
        );
    } else {
        outcome?;
        let check = f.db.begin();
        assert_eq!(
            (f.get(&check, 1)?, f.get(&check, 2)?),
            (Some(11), Some(21)),
            "{}: write skew is documented as possible here",
            I::NAME
        );
    }
    Ok(())
}

#[test]
fn g2_item_write_skew_possible_below_serializable() -> Result<()> {
    g2_item::<ReadCommitted>()?;
    g2_item::<RepeatableRead>()?;
    g2_item::<Snapshot>()?;
    g2_item::<Serializable>()
}

// ===========================================================================
// G2 — Anti-Dependency Cycles (write skew on predicate read)
// ===========================================================================

/// ```sql
/// select * from test where value % 3 = 0; -- T1
/// select * from test where value % 3 = 0; -- T2
/// insert into test (id, value) values(3, 30); -- T1
/// insert into test (id, value) values(4, 42); -- T2
/// commit; -- T1
/// commit; -- T2. Serializable: "could not serialize access ..."
/// select * from test where value % 3 = 0; -- Either. Returns 3 => 30, 4 => 42
/// ```
///
/// A scan is recorded with its filter, and the filter is evaluated again at
/// commit, so a row that *appears* and passes it is noticed: T2 read "no row
/// matches", and T1 made one match.
#[test]
fn g2_predicate_write_skew_is_prevented() -> Result<()> {
    let mut f = setup()?;
    let t1 = f.begin_with::<Serializable>();
    let t2 = f.begin_with::<Serializable>();

    assert!(matching(&mut f, &t1, |v| v % 3 == 0)?.is_empty());
    assert!(matching(&mut f, &t2, |v| v % 3 == 0)?.is_empty());

    f.insert(&t1, 3, 30)?;
    f.insert(&t2, 4, 42)?;

    t1.commit(&mut f.db)?;
    let err = t2
        .commit(&mut f.db)
        .expect_err("T1 inserted a row that T2's scan would have returned");
    assert!(matches!(err, Error::SerializationFailure), "{}", err.message());

    let check = f.db.begin();
    assert_eq!(matching(&mut f, &check, |v| v % 3 == 0)?, vec![(3, 30)]);
    Ok(())
}

/// The same with the predicate handed to the engine, which then records a scan
/// of the matching rows alone.
#[test]
fn g2_is_prevented_for_scans_with_a_predicate() -> Result<()> {
    let mut f = setup()?;
    let t1 = f.begin_with::<Serializable>();
    let t2 = f.begin_with::<Serializable>();

    let by_three = || -> Arc<dyn Fn(&Test) -> bool> { Arc::new(|r: &Test| r.value % 3 == 0) };
    assert!(t1.scan_where(&mut f.db, f.table, by_three())?.is_empty());
    assert!(t2.scan_where(&mut f.db, f.table, by_three())?.is_empty());

    f.insert(&t1, 3, 30)?;
    f.insert(&t2, 4, 42)?;

    t1.commit(&mut f.db)?;
    let err = t2.commit(&mut f.db).expect_err("a phantom appeared");
    assert!(matches!(err, Error::SerializationFailure), "{}", err.message());
    Ok(())
}

/// The item-level half of G2: the rows that the predicate covers exist already.
#[test]
fn g2_is_prevented_when_the_predicate_covers_existing_rows() -> Result<()> {
    let mut f = setup()?;
    let t1 = f.begin_with::<Serializable>();
    let t2 = f.begin_with::<Serializable>();

    // Same predicate shape as G2, but matching rows that already exist.
    assert_eq!(matching(&mut f, &t1, |v| v % 10 == 0)?, vec![(1, 10), (2, 20)]);
    assert_eq!(matching(&mut f, &t2, |v| v % 10 == 0)?, vec![(1, 10), (2, 20)]);

    f.set(&t1, 1, 15)?;
    f.set(&t2, 2, 25)?;

    t1.commit(&mut f.db)?;
    let err = t2.commit(&mut f.db).expect_err("T2 read row 1, which T1 changed");
    assert!(matches!(err, Error::SerializationFailure), "{}", err.message());
    Ok(())
}
