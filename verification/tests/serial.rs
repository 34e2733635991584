//! Serializable transactions against every serial order they could have run in.

use std::sync::Arc;

use mvcc::schema::{Encodable, IndexKey, RecordType, TableRef};
use mvcc::{Config, Database, Error, Result, Serializable, Transaction, Versioned};

#[derive(Clone, Debug, PartialEq)]
struct Cell {
    id: u64,
    value: i64,
}

impl Versioned for Cell {
    type Key = u64;
    type Predicate = Arc<dyn Fn(&Cell) -> bool>;

    fn key(&self) -> u64 {
        self.id
    }

    fn key_bytes(&self) -> IndexKey {
        self.id.encode()
    }

    fn index_key(&self, _position: usize) -> IndexKey {
        IndexKey(Vec::new())
    }

    fn satisfies(&self, predicate: &Self::Predicate) -> bool {
        predicate(self)
    }
}

fn cells(values: &[i64]) -> Result<(Database<Cell>, TableRef)> {
    let mut db = Database::open(Config::in_memory())?;
    let table = db.register(RecordType(0), "cells", vec![])?;
    let tx = db.begin();
    for (id, value) in values.iter().enumerate() {
        tx.insert(&mut db, table, Cell { id: id as u64, value: *value })?;
    }
    tx.commit(&mut db)?;
    Ok((db, table))
}

fn get(
    tx: &Transaction<Serializable>,
    db: &mut Database<Cell>,
    table: TableRef,
    id: u64,
) -> Result<i64> {
    Ok(tx.get(db, table, &id)?.unwrap().value)
}

fn set(
    tx: &Transaction<Serializable>,
    db: &mut Database<Cell>,
    table: TableRef,
    id: u64,
    value: i64,
) -> Result<bool> {
    tx.update(db, table, &id, |c| c.value = value)
}

/// A sequence of numbers that looks random and is the same every time.
struct Numbers(u64);

impl Numbers {
    fn next(&mut self, below: usize) -> usize {
        self.0 = self.0.wrapping_mul(6_364_136_223_846_793_005).wrapping_add(1_442_695_040_888_963_407);
        ((self.0 >> 33) as usize) % below
    }
}

/// What one transaction did.
#[derive(Clone)]
struct Log {
    /// Cells read, each with what was found.
    reads: Vec<(usize, i64)>,
    /// Scans for values above a limit, each with the cells found.
    scans: Vec<(i64, Vec<(usize, i64)>)>,
    /// The cell written and what it was set to.
    write: Option<(usize, i64)>,
}

/// Whether running `order` one after another from `start` explains every log.
fn explains(start: &[i64], logs: &[Log], order: &[usize], end: &[i64]) -> bool {
    let mut now = start.to_vec();
    for &i in order {
        let log = &logs[i];
        if log.reads.iter().any(|(c, v)| now[*c] != *v) {
            return false;
        }
        for (limit, found) in &log.scans {
            let would: Vec<(usize, i64)> = now
                .iter()
                .enumerate()
                .filter(|(_, v)| **v > *limit)
                .map(|(c, v)| (c, *v))
                .collect();
            if would != *found {
                return false;
            }
        }
        if let Some((c, v)) = log.write {
            now[c] = v;
        }
    }
    now == end
}

/// Whether some order of `left`, behind `order`, explains every log.
fn some_order(
    start: &[i64],
    logs: &[Log],
    order: &mut Vec<usize>,
    left: &[usize],
    end: &[i64],
) -> bool {
    if left.is_empty() {
        return explains(start, logs, order, end);
    }
    for n in 0..left.len() {
        let mut rest = left.to_vec();
        order.push(rest.remove(n));
        if some_order(start, logs, order, &rest, end) {
            return true;
        }
        order.pop();
    }
    false
}

#[test]
fn committed_transactions_could_have_run_one_after_another() -> Result<()> {
    const CELLS: usize = 4;
    const TXNS: usize = 6;
    let mut numbers = Numbers(17);
    let mut committed = 0;
    let mut refused = 0;
    for round in 0..1000 {
        let start: Vec<i64> = (0..CELLS).map(|_| numbers.next(10) as i64).collect();
        let (mut db, table) = cells(&start)?;
        let mut txns: Vec<Option<Transaction<Serializable>>> = Vec::new();
        let mut logs: Vec<Log> = Vec::new();
        for _ in 0..TXNS {
            txns.push(None);
            logs.push(Log { reads: vec![], scans: vec![], write: None });
        }
        let mut done: Vec<usize> = Vec::new();
        let mut kept: Vec<usize> = Vec::new();
        // Each transaction writes one cell, and several may write the same one.
        while done.len() < TXNS {
            let i = numbers.next(TXNS);
            if done.contains(&i) {
                continue;
            }
            if txns[i].is_none() {
                txns[i] = Some(db.begin_with::<Serializable>());
                continue;
            }
            let tx = txns[i].as_ref().unwrap();
            match numbers.next(5) {
                0 | 1 => {
                    let c = numbers.next(CELLS);
                    if logs[i].write.map(|w| w.0) != Some(c) {
                        let v = get(tx, &mut db, table, c as u64)?;
                        logs[i].reads.push((c, v));
                    }
                }
                2 if logs[i].write.is_none() => {
                    let limit = numbers.next(10) as i64;
                    let found = tx.scan_where(
                        &mut db,
                        table,
                        Arc::new(move |c: &Cell| c.value > limit),
                    )?;
                    let found = found.iter().map(|c| (c.id as usize, c.value)).collect();
                    logs[i].scans.push((limit, found));
                }
                3 if logs[i].write.is_none() => {
                    let c = numbers.next(CELLS - 1);
                    let v = numbers.next(10) as i64;
                    match set(tx, &mut db, table, c as u64, v) {
                        Ok(there) => {
                            assert!(there);
                            logs[i].write = Some((c, v));
                        }
                        Err(e) => {
                            assert!(matches!(e, Error::WriteConflict { .. }));
                            txns[i].take().unwrap().abort(&mut db);
                            done.push(i);
                        }
                    }
                }
                4 if logs[i].write.is_some() => {
                    done.push(i);
                    match txns[i].take().unwrap().commit(&mut db) {
                        Ok(()) => {
                            kept.push(i);
                            committed += 1;
                        }
                        Err(e) => {
                            assert!(matches!(e, Error::SerializationFailure));
                            refused += 1;
                        }
                    }
                }
                _ => {}
            }
        }
        let check = db.begin();
        let end: Vec<i64> = check.scan(&mut db, table)?.iter().map(|c| c.value).collect();
        assert!(
            some_order(&start, &logs, &mut Vec::new(), &kept, &end),
            "round {round} has no serial order"
        );
    }
    assert!(committed > 1000 && refused > 100, "{committed} committed, {refused} refused");
    Ok(())
}

#[test]
fn a_transaction_that_wrote_nothing_is_not_validated() -> Result<()> {
    let (mut db, table) = cells(&[0, 0])?;
    // `t` comes before `w`, whose write it missed.
    let t = db.begin_with::<Serializable>();
    assert_eq!(get(&t, &mut db, table, 0)?, 0);
    let w = db.begin_with::<Serializable>();
    set(&w, &mut db, table, 0, 1)?;
    w.commit(&mut db)?;
    let reader = db.begin_with::<Serializable>();
    set(&t, &mut db, table, 1, 1)?;
    t.commit(&mut db)?;
    // The reader sees `w` and not `t`. It commits all the same.
    assert_eq!(get(&reader, &mut db, table, 0)?, 1);
    assert_eq!(get(&reader, &mut db, table, 1)?, 0);
    reader.commit(&mut db)
}

#[test]
fn a_commit_overwritten_in_turn_is_still_found() -> Result<()> {
    let (mut db, table) = cells(&[0, 0, 0])?;
    // `w1` comes before `w0`, whose write it missed.
    let w1 = db.begin_with::<Serializable>();
    assert_eq!(get(&w1, &mut db, table, 0)?, 0);
    let w0 = db.begin_with::<Serializable>();
    set(&w0, &mut db, table, 0, 1)?;
    w0.commit(&mut db)?;
    // `t` sees `w0`, so it comes after both.
    let t = db.begin_with::<Serializable>();
    assert_eq!(get(&t, &mut db, table, 0)?, 1);
    set(&w1, &mut db, table, 1, 1)?;
    w1.commit(&mut db)?;
    let w2 = db.begin_with::<Serializable>();
    set(&w2, &mut db, table, 1, 2)?;
    w2.commit(&mut db)?;
    // It misses `w1`, although `w2` is what stands there now.
    assert_eq!(get(&t, &mut db, table, 1)?, 0);
    set(&t, &mut db, table, 2, 1)?;
    assert!(matches!(t.commit(&mut db), Err(Error::SerializationFailure)));
    Ok(())
}

fn above(limit: i64) -> Arc<dyn Fn(&Cell) -> bool> {
    Arc::new(move |c: &Cell| c.value > limit)
}

#[test]
fn a_row_that_came_and_went_leaves_a_scan_as_it_was() -> Result<()> {
    let (mut db, table) = cells(&[0, 0, 0])?;
    let scanner = db.begin_with::<Serializable>();
    assert!(scanner.scan_where(&mut db, table, above(5))?.is_empty());
    let came = db.begin_with::<Serializable>();
    set(&came, &mut db, table, 0, 9)?;
    came.commit(&mut db)?;
    let t = db.begin_with::<Serializable>();
    assert_eq!(get(&t, &mut db, table, 0)?, 9);
    let went = db.begin_with::<Serializable>();
    set(&went, &mut db, table, 0, 0)?;
    went.commit(&mut db)?;
    // The scanner finds what it found before, so it can come after both.
    set(&scanner, &mut db, table, 1, 1)?;
    scanner.commit(&mut db)?;
    assert_eq!(get(&t, &mut db, table, 1)?, 0);
    set(&t, &mut db, table, 2, 1)?;
    t.commit(&mut db)
}

#[test]
fn a_row_that_came_and_went_counts_where_something_else_changed() -> Result<()> {
    let (mut db, table) = cells(&[0, 0, 0, 0])?;
    // `came` is before `w`, whose write it missed, and `w` before `t`, which sees it.
    let came = db.begin_with::<Serializable>();
    assert_eq!(get(&came, &mut db, table, 3)?, 0);
    let w = db.begin_with::<Serializable>();
    set(&w, &mut db, table, 3, 1)?;
    w.commit(&mut db)?;
    let t = db.begin_with::<Serializable>();
    assert_eq!(get(&t, &mut db, table, 3)?, 1);
    set(&came, &mut db, table, 0, 9)?;
    came.commit(&mut db)?;
    let went = db.begin_with::<Serializable>();
    set(&went, &mut db, table, 0, 0)?;
    set(&went, &mut db, table, 1, 1)?;
    went.commit(&mut db)?;
    // `t` scans as if before `came` or after `went`. It cannot be after `went`,
    // the other write of which it misses.
    assert!(t.scan_where(&mut db, table, above(5))?.is_empty());
    assert_eq!(get(&t, &mut db, table, 1)?, 0);
    set(&t, &mut db, table, 2, 1)?;
    assert!(matches!(t.commit(&mut db), Err(Error::SerializationFailure)));
    Ok(())
}

#[test]
fn versions_replaced_within_one_transaction_were_never_there() -> Result<()> {
    let (mut db, table) = cells(&[0, 0])?;
    let scanner = db.begin_with::<Serializable>();
    let none = scanner.scan_where(&mut db, table, Arc::new(|c: &Cell| c.value > 5))?;
    assert!(none.is_empty());
    let peer = db.begin_with::<Serializable>();
    assert_eq!(get(&peer, &mut db, table, 1)?, 0);
    // Up and down again before it commits: the scanner missed nothing.
    let w = db.begin_with::<Serializable>();
    set(&w, &mut db, table, 0, 9)?;
    set(&w, &mut db, table, 0, 1)?;
    w.commit(&mut db)?;
    set(&scanner, &mut db, table, 1, 1)?;
    scanner.commit(&mut db)
}
