//! The transaction handle: reading, writing and scanning.

use std::marker::PhantomData;
use std::sync::Arc;

use vstd::prelude::*;

use crate::claims::{acquired_here, claim_all, claims_with, unclaim};
use crate::database::{
    lemma_still_linked, linked, listed_once, lists_claim, lists_write, Database, Read, Scope,
    TxnLocal,
};
use crate::error::{Error, Result};
use crate::filter::{Bound, Filter};
use crate::isolation::IsolationLevel;
use crate::keep::{lemma_no_unique_conflict, lemma_read_inv, lemma_write_inv};
use crate::order::{lex_lt, same_bytes};
use crate::ordered::Ordered;
use crate::schema::{Encodable, Index, IndexKey, TableRef};
use crate::slot::{lemma_newest_index, live_value, newest_index, visible, Version};
use crate::state::{lemma_shared, seen, slot_conflict, unshared, DbView, ScopeView};
use crate::table::{begins_of, index_before, scanned, TableView};
use crate::time::{Timestamp, TxnId, Visibility, NOBODY};
use crate::versioned::Versioned;

verus! {

broadcast use vstd::std_specs::hash::group_hash_axioms;

/// A transaction at isolation level `I`.
///
/// `I` is a typestate: a transaction that reads committed data and one that is
/// serializable are different types.
#[verifier::reject_recursive_types(I)]
pub struct Transaction<I: IsolationLevel> {
    id: TxnId,
    snapshot: Timestamp,
    level: PhantomData<I>,
}

impl<I: IsolationLevel> Transaction<I> {
    /// The id of this transaction.
    pub closed spec fn who(&self) -> u64 {
        self.id.0
    }

    /// The snapshot this transaction began at.
    pub closed spec fn reads_at(&self) -> u64 {
        self.snapshot.0
    }

    pub(crate) fn at(id: TxnId, snapshot: Timestamp) -> (tx: Self)
        ensures
            tx.who() == id.0,
            tx.reads_at() == snapshot.0,
    {
        Transaction { id, snapshot, level: PhantomData }
    }

    pub fn id(&self) -> (id: TxnId)
        ensures
            id.0 == self.who(),
    {
        self.id
    }

    /// The snapshot this transaction reads at.
    pub fn snapshot(&self) -> (ts: Timestamp)
        ensures
            ts.0 == self.reads_at(),
    {
        self.snapshot
    }
}

/// A snapshot-consistent view of a record.
///
/// Holds the record alive, so it stays valid for as long as it is kept, even as
/// other transactions overwrite the record.
#[derive(Debug)]
pub struct Ref<T> {
    record: Arc<T>,
}

impl<T> View for Ref<T> {
    type V = T;

    closed spec fn view(&self) -> T {
        *self.record
    }
}

impl<T> Ref<T> {
    fn of(record: Arc<T>) -> (r: Self)
        ensures
            r@ == *record,
    {
        Ref { record }
    }
}

impl<T> std::ops::Deref for Ref<T> {
    type Target = T;

    fn deref(&self) -> (r: &T)
        ensures
            *r == self@,
    {
        &self.record
    }
}

impl<T: Clone> Ref<T> {
    /// Copy the record out, detaching it from the version chain.
    pub fn to_owned(&self) -> (r: T)
        ensures
            cloned(self@, r),
    {
        (*self.record).clone()
    }
}

/// `records` are the records of `rows`.
pub open spec fn records_of<T: Versioned>(
    records: Seq<Ref<T>>,
    rows: Map<Seq<u8>, Version<T>>,
) -> bool {
    &&& forall|i: int|
        0 <= i < records.len() ==> rows.contains_key((#[trigger] records[i])@.spec_key())
            && live_value(Some(rows[records[i]@.spec_key()])) == Some(records[i]@)
    &&& forall|k: Seq<u8>| #[trigger]
        rows.contains_key(k) ==> exists|i: int|
            0 <= i < records.len() && (#[trigger] records[i])@.spec_key() == k
}

/// In primary key order, no key twice.
pub open spec fn in_key_order<T: Versioned>(records: Seq<Ref<T>>) -> bool {
    forall|i: int, j: int|
        0 <= i < j < records.len() ==> lex_lt(
            (#[trigger] records[i])@.spec_key(),
            (#[trigger] records[j])@.spec_key(),
        )
}

/// In the order of an index, records with equal index keys in primary key order.
pub open spec fn in_key_order_of<T: Versioned>(records: Seq<Ref<T>>, position: int) -> bool {
    forall|i: int, j: int|
        #![trigger records[i], records[j]]
        0 <= i < j < records.len() ==> {
            let a = records[i]@;
            let b = records[j]@;
            ||| lex_lt(a.spec_index_key(position), b.spec_index_key(position))
            ||| a.spec_index_key(position) == b.spec_index_key(position) && lex_lt(
                a.spec_key(),
                b.spec_key(),
            )
        }
}

/// `b` is `a` over encoded keys.
pub open spec fn encodes<K: Encodable>(a: Bound<K>, b: Bound<IndexKey>) -> bool {
    match (a, b) {
        (Bound::Included(k), Bound::Included(e)) => e@ == k.encoded(),
        (Bound::Excluded(k), Bound::Excluded(e)) => e@ == k.encoded(),
        (Bound::Unbounded, Bound::Unbounded) => true,
        _ => false,
    }
}

/// `filter` asks for the records whose key in `index` lies between `lo` and `hi`.
pub open spec fn asks_for<T: Versioned, K: Encodable>(
    filter: Filter<T::Predicate>,
    index: Index<T, K>,
    lo: Bound<K>,
    hi: Bound<K>,
) -> bool {
    match filter {
        Filter::Range { position, lo: a, hi: b } => position == index.position && encodes(lo, a)
            && encodes(hi, b),
        _ => false,
    }
}

impl<I: IsolationLevel> Transaction<I> {
    /// Read by primary key.
    ///
    /// A read waits for nobody who is writing the record: it sees the version that
    /// its snapshot has.
    pub fn get<T: Versioned>(&self, db: &mut Database<T>, table: TableRef, key: &T::Key) -> (r:
        Result<Option<Ref<T>>>)
        requires
            old(db).wf(),
        ensures
            final(db).wf(),
            match old(db)@.refused(self.who(), table) {
                Some(e) => r == Err::<Option<Ref<T>>, Error>(e) && final(db)@ == old(db)@,
                None => {
                    let t = table.id.0 as int;
                    let k = key.encoded();
                    &&& final(db)@ == old(db)@.after_read(self.who(), t, ScopeView::Row(k))
                    &&& match r {
                        Ok(Some(record)) => old(db)@.record_at(self.who(), t, k) == Some(record@),
                        Ok(None) => old(db)@.record_at(self.who(), t, k) is None,
                        Err(_) => false,
                    }
                },
            },
    {
        let t: usize = match db.resolve(self.id, table) {
            Ok(t) => t,
            Err(e) => {
                return Err(e);
            },
        };
        let snapshot = db.statement_snapshot(self.id);
        let bytes = key.encode();
        let found: Option<Ref<T>> = match db.tables[t].read(&bytes, snapshot, self.id) {
            Some(version) => match &version.value {
                Some(record) => Some(Ref::of(record.clone())),
                // A visible version with no value is a tombstone: the record was
                // deleted at or before this snapshot.
                None => None,
            },
            None => None,
        };
        assert(db@.tables[t as int] == db.tables@[t as int]@);
        db.record_look(self.id, t, bytes);
        Ok(found)
    }

    /// Insert a new record.
    ///
    /// Fails with [`Error::DuplicateKey`] if the primary key already has a
    /// visible record, or if a unique index would be violated. A failed write
    /// leaves the transaction usable; as it goes on knowing whether there is a
    /// record under the key, it has read it.
    pub fn insert<T: Versioned>(&self, db: &mut Database<T>, table: TableRef, value: T) -> (r:
        Result<()>)
        requires
            old(db).wf(),
        ensures
            final(db).wf(),
            match old(db)@.refused(self.who(), table) {
                Some(e) => r == Err::<(), Error>(e) && final(db)@ == old(db)@,
                None => {
                    let t = table.id.0 as int;
                    let k = value.spec_key();
                    match old(db)@.insert_error(self.who(), t, value) {
                        Some(e) => r == Err::<(), Error>(e) && final(db)@ == old(db)@.after_read(
                            self.who(),
                            t,
                            ScopeView::Row(k),
                        ),
                        None => r is Ok && final(db)@ == old(db)@.after_write(
                            self.who(),
                            t,
                            k,
                            Some(value),
                        ),
                    }
                },
            },
    {
        let t: usize = match db.resolve(self.id, table) {
            Ok(t) => t,
            Err(e) => {
                return Err(e);
            },
        };
        let snapshot = db.statement_snapshot(self.id);
        let key = value.key_bytes();
        assert(db@.tables[t as int] == db.tables@[t as int]@);
        let exists: bool = match db.tables[t].read(&key, snapshot, self.id) {
            Some(version) => version.value.is_some(),
            None => false,
        };
        if exists {
            let table = db.tables[t].name();
            db.record_look(self.id, t, key);
            return Err(Error::DuplicateKey { table, index: "primary_key" });
        }
        db.write_or_look(self.id, t, key, Some(Arc::new(value)))
    }

    /// Read, modify and write by primary key. Returns `false` if the record does
    /// not exist at this snapshot.
    ///
    /// Takes a closure rather than handing out a reference: the engine needs to
    /// know when the change is complete, to install the version and update the
    /// indexes, and it has to be able to report a conflict. Where nothing is
    /// written the record has been read.
    pub fn update<T: Versioned, F: FnOnce(&mut T)>(
        &self,
        db: &mut Database<T>,
        table: TableRef,
        key: &T::Key,
        f: F,
    ) -> (r: Result<bool>)
        requires
            old(db).wf(),
            forall|x: &mut T| #[trigger] call_requires(f, (x,)),
        ensures
            final(db).wf(),
            match old(db)@.refused(self.who(), table) {
                Some(e) => r == Err::<bool, Error>(e) && final(db)@ == old(db)@,
                None => {
                    let t = table.id.0 as int;
                    let k = key.encoded();
                    match old(db)@.record_at(self.who(), t, k) {
                        None => r == Ok::<bool, Error>(false) && final(db)@ == old(
                            db,
                        )@.after_read(self.who(), t, ScopeView::Row(k)),
                        Some(current) => exists|m: &mut T, next: T|
                            #![trigger call_ensures(f, (m,), ()), cloned(next, next)]
                            {
                                &&& cloned(current, *m)
                                &&& call_ensures(f, (m,), ())
                                &&& *final(m) == next
                                &&& match old(db)@.replace_error(self.who(), t, k, next) {
                                    Some(e) => r == Err::<bool, Error>(e) && final(db)@ == old(
                                        db,
                                    )@.after_read(self.who(), t, ScopeView::Row(k)),
                                    None => r == Ok::<bool, Error>(true) && final(db)@ == old(
                                        db,
                                    )@.after_write(self.who(), t, k, Some(next)),
                                }
                            },
                    }
                },
            },
    {
        let mut next: T = match self.fetch(db, table, key) {
            Ok(Some(current)) => current,
            Ok(None) => {
                return Ok(false);
            },
            Err(e) => {
                return Err(e);
            },
        };
        f(&mut next);
        let ghost same = cloned(next, next);
        match self.replace(db, table, key, next) {
            Ok(()) => Ok(true),
            Err(e) => Err(e),
        }
    }

    /// The first half of [`Transaction::update`]: a copy of the record to modify,
    /// or `None` if it does not exist at this snapshot. In that case it has been
    /// read; otherwise [`Transaction::replace`], the other half, has to follow.
    ///
    /// Between the two the caller can do the modifying while others use the
    /// database.
    pub fn fetch<T: Versioned>(&self, db: &mut Database<T>, table: TableRef, key: &T::Key) -> (r:
        Result<Option<T>>)
        requires
            old(db).wf(),
        ensures
            final(db).wf(),
            match old(db)@.refused(self.who(), table) {
                Some(e) => r == Err::<Option<T>, Error>(e) && final(db)@ == old(db)@,
                None => {
                    let t = table.id.0 as int;
                    let k = key.encoded();
                    match old(db)@.record_at(self.who(), t, k) {
                        None => r == Ok::<Option<T>, Error>(None) && final(db)@ == old(
                            db,
                        )@.after_read(self.who(), t, ScopeView::Row(k)),
                        Some(current) => {
                            &&& r matches Ok(Some(copy))
                            &&& cloned(current, copy)
                            &&& final(db)@ == old(db)@
                        },
                    }
                },
            },
    {
        let t: usize = match db.resolve(self.id, table) {
            Ok(t) => t,
            Err(e) => {
                return Err(e);
            },
        };
        let snapshot = db.statement_snapshot(self.id);
        let bytes = key.encode();
        assert(db@.tables[t as int] == db.tables@[t as int]@);
        let found: Option<T> = match db.tables[t].read(&bytes, snapshot, self.id) {
            Some(version) => match &version.value {
                Some(record) => Some((**record).clone()),
                None => None,
            },
            None => None,
        };
        if found.is_none() {
            db.record_look(self.id, t, bytes);
        }
        Ok(found)
    }

    /// The second half of [`Transaction::update`]: write what the record under
    /// `key` has become. If that is refused the record has been read.
    pub fn replace<T: Versioned>(
        &self,
        db: &mut Database<T>,
        table: TableRef,
        key: &T::Key,
        next: T,
    ) -> (r: Result<()>)
        requires
            old(db).wf(),
        ensures
            final(db).wf(),
            match old(db)@.refused(self.who(), table) {
                Some(e) => r == Err::<(), Error>(e) && final(db)@ == old(db)@,
                None => {
                    let t = table.id.0 as int;
                    let k = key.encoded();
                    match old(db)@.replace_error(self.who(), t, k, next) {
                        Some(e) => r == Err::<(), Error>(e) && final(db)@ == old(db)@.after_read(
                            self.who(),
                            t,
                            ScopeView::Row(k),
                        ),
                        None => r is Ok && final(db)@ == old(db)@.after_write(
                            self.who(),
                            t,
                            k,
                            Some(next),
                        ),
                    }
                },
            },
    {
        let t: usize = match db.resolve(self.id, table) {
            Ok(t) => t,
            Err(e) => {
                return Err(e);
            },
        };
        let bytes = key.encode();
        assert(db@.tables[t as int] == db.tables@[t as int]@);
        let next_key = next.key_bytes();
        if !same_bytes(next_key.as_bytes(), bytes.as_bytes()) {
            // Changing the primary key would move the record to a different
            // slot, leaving the old one holding a value under a key that no
            // longer matches it.
            let table = db.tables[t].name();
            db.record_look(self.id, t, bytes);
            return Err(Error::PrimaryKeyChanged { table });
        }
        db.write_or_look(self.id, t, bytes, Some(Arc::new(next)))
    }

    /// Delete by primary key. Returns `false` if the record does not exist at
    /// this snapshot.
    ///
    /// Installs a tombstone version rather than removing anything, so readers at
    /// older snapshots still see the record alive. Where that is not done the
    /// record has been read.
    pub fn delete<T: Versioned>(&self, db: &mut Database<T>, table: TableRef, key: &T::Key) -> (r:
        Result<bool>)
        requires
            old(db).wf(),
        ensures
            final(db).wf(),
            match old(db)@.refused(self.who(), table) {
                Some(e) => r == Err::<bool, Error>(e) && final(db)@ == old(db)@,
                None => {
                    let t = table.id.0 as int;
                    let k = key.encoded();
                    let looked = old(db)@.after_read(self.who(), t, ScopeView::Row(k));
                    if old(db)@.record_at(self.who(), t, k) is None {
                        r == Ok::<bool, Error>(false) && final(db)@ == looked
                    } else {
                        match old(db)@.write_conflict(self.who(), t, k, None) {
                            Some(e) => r == Err::<bool, Error>(e) && final(db)@ == looked,
                            None => r == Ok::<bool, Error>(true) && final(db)@ == old(
                                db,
                            )@.after_write(self.who(), t, k, None),
                        }
                    }
                },
            },
    {
        let t: usize = match db.resolve(self.id, table) {
            Ok(t) => t,
            Err(e) => {
                return Err(e);
            },
        };
        let snapshot = db.statement_snapshot(self.id);
        let bytes = key.encode();
        assert(db@.tables[t as int] == db.tables@[t as int]@);
        let exists: bool = match db.tables[t].read(&bytes, snapshot, self.id) {
            Some(version) => version.value.is_some(),
            None => false,
        };
        if !exists {
            db.record_look(self.id, t, bytes);
            return Ok(false);
        }
        match db.write_or_look(self.id, t, bytes, None) {
            Ok(()) => Ok(true),
            Err(e) => Err(e),
        }
    }

    /// Every record of the table visible at this snapshot, in primary key order.
    ///
    /// For a serializable transaction the whole table becomes part of the read
    /// set. Prefer [`Transaction::scan_where`] when there is a predicate: it is
    /// far less likely to conflict.
    pub fn scan<T: Versioned>(&self, db: &mut Database<T>, table: TableRef) -> (r: Result<
        Vec<Ref<T>>,
    >)
        requires
            old(db).wf(),
        ensures
            final(db).wf(),
            match old(db)@.refused(self.who(), table) {
                Some(e) => r == Err::<Vec<Ref<T>>, Error>(e) && final(db)@ == old(db)@,
                None => {
                    let t = table.id.0 as int;
                    &&& final(db)@ == old(db)@.after_read(
                        self.who(),
                        t,
                        ScopeView::Rows(Arc::new(Filter::All)),
                    )
                    &&& match r {
                        Ok(records) => in_key_order(records@) && records_of(
                            records@,
                            old(db)@.rows_at(self.who(), t, Filter::All),
                        ),
                        Err(_) => false,
                    }
                },
            },
    {
        self.scan_filter(db, table, Arc::new(Filter::All))
    }

    /// Every record of the table visible at this snapshot that satisfies
    /// `predicate`, in primary key order.
    ///
    /// The predicate is handed to the engine rather than applied by the caller
    /// afterwards, which is the point for a serializable transaction: the engine
    /// records it and evaluates it again at commit, so that a row which appears
    /// and matches, a phantom, is noticed.
    pub fn scan_where<T: Versioned>(
        &self,
        db: &mut Database<T>,
        table: TableRef,
        predicate: T::Predicate,
    ) -> (r: Result<Vec<Ref<T>>>)
        requires
            old(db).wf(),
        ensures
            final(db).wf(),
            match old(db)@.refused(self.who(), table) {
                Some(e) => r == Err::<Vec<Ref<T>>, Error>(e) && final(db)@ == old(db)@,
                None => {
                    let t = table.id.0 as int;
                    let filter = Filter::Where(predicate);
                    &&& final(db)@ == old(db)@.after_read(
                        self.who(),
                        t,
                        ScopeView::Rows(Arc::new(filter)),
                    )
                    &&& match r {
                        Ok(records) => in_key_order(records@) && records_of(
                            records@,
                            old(db)@.rows_at(self.who(), t, filter),
                        ),
                        Err(_) => false,
                    }
                },
            },
    {
        self.scan_filter(db, table, Arc::new(Filter::Where(predicate)))
    }

    fn scan_filter<T: Versioned>(
        &self,
        db: &mut Database<T>,
        table: TableRef,
        filter: Arc<Filter<T::Predicate>>,
    ) -> (r: Result<Vec<Ref<T>>>)
        requires
            old(db).wf(),
            !(*filter is Range),
        ensures
            final(db).wf(),
            match old(db)@.refused(self.who(), table) {
                Some(e) => r == Err::<Vec<Ref<T>>, Error>(e) && final(db)@ == old(db)@,
                None => {
                    let t = table.id.0 as int;
                    &&& final(db)@ == old(db)@.after_read(self.who(), t, ScopeView::Rows(filter))
                    &&& match r {
                        Ok(records) => in_key_order(records@) && records_of(
                            records@,
                            old(db)@.rows_at(self.who(), t, *filter),
                        ),
                        Err(_) => false,
                    }
                },
            },
    {
        let t: usize = match db.resolve(self.id, table) {
            Ok(t) => t,
            Err(e) => {
                return Err(e);
            },
        };
        let snapshot = db.statement_snapshot(self.id);
        let ghost tv = db@.tables[t as int];
        assert(tv == db.tables@[t as int]@);
        assert(tv.sound(db@.clock.watermark));
        let matched: Ordered<Version<T>> = if db.validates_reads(self.id) {
            let (matched, committed) = db.tables[t].matching_pair(snapshot, self.id, &filter);
            db.record_read(self.id, t, Scope::Rows(filter), committed);
            matched
        } else {
            db.tables[t].matching(snapshot, self.id, &filter)
        };
        let ghost rows = scanned(tv.slots, snapshot.0, self.id.0, behind(filter));
        proof {
            lemma_rows_keyed(tv, snapshot.0, self.id.0, behind(filter));
            assert forall|i: int| 0 <= i < matched.items@.len() implies rows.contains_key(
                (#[trigger] matched.items@[i]).0@,
            ) && rows[matched.items@[i].0@] == matched.items@[i].1 by {
                matched.lemma_position(i);
            }
            assert forall|k: Seq<u8>| #[trigger] rows.contains_key(k) implies exists|i: int|
                0 <= i < matched.items@.len() && (#[trigger] matched.items@[i]).0@ == k by {
                assert(matched@.contains_key(k));
            }
        }
        let records = refs(&matched.items);
        proof {
            lemma_records(matched.items@, records@, rows);
            assert forall|i: int, j: int| 0 <= i < j < records@.len() implies lex_lt(
                (#[trigger] records@[i])@.spec_key(),
                (#[trigger] records@[j])@.spec_key(),
            ) by {
                let a = matched.items@[i];
                let b = matched.items@[j];
                assert(lex_lt(a.0@, b.0@));
            }
        }
        Ok(records)
    }

    /// Range scan over a secondary index, in index order.
    ///
    /// The index is named by its handle, so that a range of the wrong type does
    /// not compile. A serializable transaction has the range recorded and
    /// scanned again at commit: an insert into the range is noticed, one outside
    /// it is not.
    pub fn scan_index<T: Versioned, K: Encodable>(
        &self,
        db: &mut Database<T>,
        table: TableRef,
        index: Index<T, K>,
        lo: Bound<K>,
        hi: Bound<K>,
    ) -> (r: Result<Vec<Ref<T>>>)
        requires
            old(db).wf(),
            old(db)@.has_index(table, index),
        ensures
            final(db).wf(),
            match old(db)@.refused(self.who(), table) {
                Some(e) => r == Err::<Vec<Ref<T>>, Error>(e) && final(db)@ == old(db)@,
                None => {
                    let t = table.id.0 as int;
                    exists|filter: Arc<Filter<T::Predicate>>| #[trigger]
                        asks_for(*filter, index, lo, hi) && final(db)@ == old(db)@.after_read(
                            self.who(),
                            t,
                            ScopeView::Rows(filter),
                        ) && match r {
                            Ok(records) => in_key_order_of(records@, index.position as int)
                                && records_of(records@, old(db)@.rows_at(self.who(), t, *filter)),
                            Err(_) => false,
                        }
                },
            },
    {
        let t: usize = match db.resolve(self.id, table) {
            Ok(t) => t,
            Err(e) => {
                return Err(e);
            },
        };
        let snapshot = db.statement_snapshot(self.id);
        let ghost tv = db@.tables[t as int];
        assert(tv == db.tables@[t as int]@);
        assert(tv.sound(db@.clock.watermark));
        let from = lo.encode();
        let to = hi.encode();
        let matched = db.tables[t].matching_in_index(
            index.position,
            &from,
            &to,
            snapshot,
            self.id,
        );
        let ghost filter0 = Filter::<T::Predicate>::Range {
            position: index.position,
            lo: from,
            hi: to,
        };
        if db.validates_reads(self.id) {
            let committed = db.tables[t].matching_in_index(
                index.position,
                &from,
                &to,
                snapshot,
                TxnId::none(),
            );
            let observed = begins_of(
                &committed,
                Ghost(scanned(tv.slots, snapshot.0, NOBODY, filter0)),
            );
            let filter: Arc<Filter<T::Predicate>> = Arc::new(
                Filter::Range { position: index.position, lo: from, hi: to },
            );
            assert(asks_for(*filter, index, lo, hi));
            db.record_read(self.id, t, Scope::Rows(filter), observed);
        } else {
            let ghost shared_filter = Arc::new(filter0);
            assert(asks_for(*shared_filter, index, lo, hi));
        }
        let ghost rows = scanned(tv.slots, snapshot.0, self.id.0, filter0);
        proof {
            lemma_rows_keyed(tv, snapshot.0, self.id.0, filter0);
        }
        let records = refs(&matched);
        proof {
            lemma_records(matched@, records@, rows);
            assert forall|i: int, j: int|
                #![trigger records@[i], records@[j]]
                0 <= i < j < records@.len() implies ({
                let a = records@[i]@;
                let b = records@[j]@;
                let p = index.position as int;
                ||| lex_lt(a.spec_index_key(p), b.spec_index_key(p))
                ||| a.spec_index_key(p) == b.spec_index_key(p) && lex_lt(a.spec_key(), b.spec_key())
            }) by {
                assert(index_before(matched@[i], matched@[j], index.position as int));
            }
        }
        Ok(records)
    }
}

/// The filter that is shared.
spec fn behind<P>(filter: Arc<Filter<P>>) -> Filter<P> {
    *filter
}

/// Every row a scan finds sits under its record's key.
proof fn lemma_rows_keyed<T: Versioned>(
    tv: TableView<T>,
    s: u64,
    r: u64,
    filter: Filter<T::Predicate>,
)
    requires
        tv.keyed(),
    ensures
        forall|k: Seq<u8>| #[trigger]
            scanned(tv.slots, s, r, filter).contains_key(k) ==> {
                let v = scanned(tv.slots, s, r, filter)[k];
                v.value is Some && (*v.value->Some_0).spec_key() == k
            },
{
    assert forall|k: Seq<u8>| #[trigger]
        scanned(tv.slots, s, r, filter).contains_key(k) implies ({
        let v = scanned(tv.slots, s, r, filter)[k];
        v.value is Some && (*v.value->Some_0).spec_key() == k
    }) by {
        let p = |v: Version<T>| visible(v, s, r);
        lemma_newest_index(tv.slots[k].chain, p);
        let i = newest_index(tv.slots[k].chain, p);
        let v = tv.slots[k].chain[i];
    }
}

/// Handing rows out as records.
proof fn lemma_records<T: Versioned>(
    items: Seq<(IndexKey, Version<T>)>,
    records: Seq<Ref<T>>,
    rows: Map<Seq<u8>, Version<T>>,
)
    requires
        forall|k: Seq<u8>| #[trigger]
            rows.contains_key(k) ==> rows[k].value is Some && (
            *rows[k].value->Some_0).spec_key() == k,
        forall|i: int|
            0 <= i < items.len() ==> rows.contains_key((#[trigger] items[i]).0@)
                && rows[items[i].0@] == items[i].1,
        forall|k: Seq<u8>| #[trigger]
            rows.contains_key(k) ==> exists|i: int|
                0 <= i < items.len() && (#[trigger] items[i]).0@ == k,
        records.len() == items.len(),
        forall|i: int|
            0 <= i < items.len() && items[i].1.value is Some ==> (#[trigger] records[i])@
                == *items[i].1.value->Some_0,
    ensures
        records_of(records, rows),
        forall|i: int|
            0 <= i < items.len() ==> (#[trigger] records[i])@.spec_key() == items[i].0@
                && items[i].1.value is Some,
{
    assert forall|i: int| 0 <= i < items.len() implies (#[trigger] records[i])@.spec_key()
        == items[i].0@ && items[i].1.value is Some by {
        assert(rows.contains_key(items[i].0@));
    }
    assert forall|k: Seq<u8>| #[trigger] rows.contains_key(k) implies exists|i: int|
        0 <= i < records.len() && (#[trigger] records[i])@.spec_key() == k by {
        let i = choose|i: int| 0 <= i < items.len() && (#[trigger] items[i]).0@ == k;
        assert(records[i]@.spec_key() == k);
    }
    assert forall|i: int| 0 <= i < records.len() implies rows.contains_key(
        (#[trigger] records[i])@.spec_key(),
    ) && live_value(Some(rows[records[i]@.spec_key()])) == Some(records[i]@) by {
        assert(rows.contains_key(items[i].0@));
    }
}

/// The records of some rows, none of which is a tombstone.
fn refs<T>(rows: &Vec<(IndexKey, Version<T>)>) -> (out: Vec<Ref<T>>)
    requires
        forall|i: int| 0 <= i < rows@.len() ==> (#[trigger] rows@[i]).1.value is Some,
    ensures
        out@.len() == rows@.len(),
        forall|i: int|
            0 <= i < rows@.len() && rows@[i].1.value is Some ==> (#[trigger] out@[i])@
                == *rows@[i].1.value->Some_0,
{
    let mut out: Vec<Ref<T>> = Vec::new();
    let mut i: usize = 0;
    while i < rows.len()
        invariant
            i <= rows@.len(),
            forall|i: int| 0 <= i < rows@.len() ==> (#[trigger] rows@[i]).1.value is Some,
            out@.len() == i,
            forall|j: int| 0 <= j < i ==> (#[trigger] out@[j])@ == *rows@[j].1.value->Some_0,
        decreases rows@.len() - i,
    {
        let row = &rows[i];
        assert(rows@[i as int].1.value is Some);
        match &row.1.value {
            Some(record) => out.push(Ref::of(record.clone())),
            None => {},
        }
        i = i + 1;
    }
    out
}

/// What a write does to the lists of the transaction that makes it.
proof fn lemma_write_linked<T: Versioned>(
    before: DbView<T>,
    id: u64,
    t: int,
    k: Seq<u8>,
    value: Option<Arc<T>>,
    a: TxnLocal<T>,
    b: TxnLocal<T>,
    acquired: Seq<(usize, IndexKey)>,
)
    requires
        before.inv(),
        before.live(id),
        0 <= t < before.tables.len(),
        before.write_conflict(id, t, k, unshared(value)) is None,
        linked(before.tables, id, a),
        b.reads@ == a.reads@,
        if before.tables[t].slots[k].lock == id {
            b.writes@ == a.writes@
        } else {
            b.writes@.len() == a.writes@.len() + 1 && b.writes@.drop_last() == a.writes@
                && b.writes@.last().0 == t && b.writes@.last().1@ == k
        },
        forall|u: int, p: int, ik: Seq<u8>| #[trigger]
            lists_claim(b.claims@, u, p, ik) <==> lists_claim(a.claims@, u, p, ik) || (u == t
                && acquired_here(acquired, p, ik)),
        forall|p: int, ik: Seq<u8>| #[trigger]
            acquired_here(acquired, p, ik) <==> value is Some && 0 <= p
                < before.tables[t].indexes.len() && before.tables[t].indexes[p].unique && ik == (
            *value->Some_0).spec_index_key(p) && !before.tables[t].claims[p].contains_key(ik),
    ensures
        linked(before.after_write(id, t, k, unshared(value)).tables, id, b),
        forall|x: u64, l: TxnLocal<T>|
            x != id && x != 0 && #[trigger] linked(before.tables, x, l) ==> linked(
                before.after_write(id, t, k, unshared(value)).tables,
                x,
                l,
            ),
{
    lemma_shared(value);
    let after = before.after_write(id, t, k, unshared(value));
    let tv = before.tables[t];
    let bv = after.tables[t];
    assert(tv.sound(before.clock.watermark));
    assert(before.txn_ok(id));
    if value is Some {
        let x = unshared(value)->Some_0;
        lemma_no_unique_conflict(tv, id, k, x, 0);
    }
    assert forall|p: int, ik: Seq<u8>, x: u64| 0 <= p < tv.claims.len() implies (
    #[trigger] bv.holds_claim(p, ik, x) <==> tv.holds_claim(p, ik, x) || (x == id
        && acquired_here(acquired, p, ik))) by {
        let y = tv.indexes[p];
        if value is Some && y.unique && ik == (*value->Some_0).spec_index_key(p) {
            assert(bv.claims[p] == tv.claims[p].insert(ik, id));
        }
    }
    assert forall|u: int, j: Seq<u8>| #[trigger]
        lists_write(b.writes@, u, j) <==> 0 <= u < after.tables.len()
            && after.tables[u].slots[j].lock == id by {
        assert(lists_write(a.writes@, u, j) <==> 0 <= u < before.tables.len()
            && before.tables[u].slots[j].lock == id);
        if tv.slots[k].lock != id {
            let n = a.writes@.len() as int;
            if lists_write(b.writes@, u, j) {
                let i = choose|i: int|
                    0 <= i < b.writes@.len() && (#[trigger] b.writes@[i]).0 == u
                        && b.writes@[i].1@ == j;
                if i < n {
                    assert(a.writes@[i] == b.writes@[i]);
                }
            }
            if lists_write(a.writes@, u, j) {
                let i = choose|i: int|
                    0 <= i < a.writes@.len() && (#[trigger] a.writes@[i]).0 == u
                        && a.writes@[i].1@ == j;
                assert(a.writes@[i] == b.writes@[i]);
            }
            if u == t && j == k {
                assert(b.writes@[n].0 == t && b.writes@[n].1@ == k);
            }
        }
    }
    assert(listed_once(b.writes@)) by {
        if tv.slots[k].lock != id {
            assert forall|i: int, j: int| 0 <= i < j < b.writes@.len() implies (
            #[trigger] b.writes@[i]).0 != (#[trigger] b.writes@[j]).0 || b.writes@[i].1@
                != b.writes@[j].1@ by {
                assert(a.writes@[i] == b.writes@[i]);
                if j < a.writes@.len() {
                    assert(a.writes@[j] == b.writes@[j]);
                } else if b.writes@[i].0 == t && b.writes@[i].1@ == k {
                    assert(lists_write(a.writes@, t, k));
                }
            }
        }
    }
    assert forall|u: int, p: int, ik: Seq<u8>| #[trigger]
        lists_claim(b.claims@, u, p, ik) <==> 0 <= u < after.tables.len() && 0 <= p
            < after.tables[u].claims.len() && after.tables[u].holds_claim(p, ik, id) by {
        assert(lists_claim(a.claims@, u, p, ik) <==> 0 <= u < before.tables.len() && 0 <= p
            < before.tables[u].claims.len() && before.tables[u].holds_claim(p, ik, id));
        if u == t {
            let z = bv.holds_claim(p, ik, id);
            let w = acquired_here(acquired, p, ik);
        }
    }
    assert forall|x: u64, l: TxnLocal<T>|
        x != id && x != 0 && #[trigger] linked(before.tables, x, l) implies linked(
        after.tables,
        x,
        l,
    ) by {
        assert forall|u: int, p: int, ik: Seq<u8>|
            #![trigger after.tables[u].holds_claim(p, ik, x)]
            0 <= u < before.tables.len() && 0 <= p < before.tables[u].claims.len() implies (
        after.tables[u].holds_claim(p, ik, x) <==> before.tables[u].holds_claim(p, ik, x)) by {
            if u == t {
                let z = bv.holds_claim(p, ik, x);
            }
        }
        lemma_still_linked(before.tables, after.tables, x, l);
    }
}

impl<T: Versioned> Database<T> {
    /// The table a statement of `id` is about, if it may start at all.
    pub(in crate::database) fn resolve(&self, id: TxnId, table: TableRef) -> (r: Result<usize>)
        requires
            self.wf(),
        ensures
            match r {
                Ok(t) => self@.refused(id.0, table) is None && t == table.id.0 && t
                    < self@.tables.len() && self@.live(id.0),
                Err(e) => self@.refused(id.0, table) == Some(e),
            },
    {
        if self.txns.get(&id.0).is_none() {
            return Err(Error::Aborted);
        }
        assert(self@.live(id.0));
        let t: usize = table.id.0 as usize;
        if t < self.tables.len() {
            assert(self@.tables[t as int] == self.tables@[t as int]@);
            if self.tables[t].of() == table.of {
                return Ok(t);
            }
        }
        Err(Error::TableNotRegistered { table: table.name })
    }

    /// The snapshot for the statement about to run.
    ///
    /// The transaction's own at every level but the one that takes a fresh one
    /// per statement and so can see commits that landed after it began.
    fn statement_snapshot(&self, id: TxnId) -> (ts: Timestamp)
        requires
            self.wf(),
            self@.live(id.0),
        ensures
            ts.0 == self@.statement_snapshot(id.0),
    {
        let local = self.txns.get(&id.0).unwrap();
        if local.rules.refresh_snapshot_per_statement {
            self.oracle.statement_snapshot()
        } else {
            local.snapshot
        }
    }

    /// Whether the reads of `id` are recorded.
    fn validates_reads(&self, id: TxnId) -> (r: bool)
        requires
            self.wf(),
            self@.live(id.0),
        ensures
            r == self@.txns[id.0].rules.validates_reads,
    {
        self.txns.get(&id.0).unwrap().rules.validates_reads
    }

    /// Record that `id` has looked at the record under `key`, if its reads are
    /// validated.
    ///
    /// What it found is taken as nobody sees it, so that the transaction's own
    /// uncommitted writes stay out of its read set. Absence is recorded too:
    /// whoever acted on it must not miss that someone creates the record.
    fn record_look(&mut self, id: TxnId, t: usize, key: IndexKey)
        requires
            old(self).wf(),
            old(self)@.live(id.0),
            t < old(self)@.tables.len(),
        ensures
            final(self).wf(),
            final(self)@ == old(self)@.after_read(id.0, t as int, ScopeView::Row(key@)),
    {
        if self.validates_reads(id) {
            let snapshot = self.statement_snapshot(id);
            assert(self@.tables[t as int] == self.tables@[t as int]@);
            let mut observed: Ordered<u64> = Ordered::new();
            match self.tables[t].read(&key, snapshot, TxnId::none()) {
                Some(version) => {
                    observed.insert(key.duplicate(), version.begin);
                },
                None => {},
            }
            assert(observed@ =~= seen(
                self@.tables[t as int].slots,
                ScopeView::Row(key@),
                snapshot.0,
            ));
            self.record_read(id, t, Scope::Row(key), observed);
        }
    }

    /// Take a read lock, and record the read for revalidation at commit.
    fn record_read(&mut self, id: TxnId, t: usize, scope: Scope<T>, observed: Ordered<u64>)
        requires
            old(self).wf(),
            old(self)@.live(id.0),
            old(self)@.txns[id.0].rules.validates_reads,
            t < old(self)@.tables.len(),
            observed.wf(),
            observed@ == seen(
                old(self)@.tables[t as int].slots,
                scope@,
                old(self)@.statement_snapshot(id.0),
            ),
            match scope@ {
                ScopeView::Row(k) => true,
                ScopeView::Rows(filter) => match *filter {
                    Filter::Range { position, .. } => position < old(
                        self,
                    )@.tables[t as int].indexes.len(),
                    _ => true,
                },
            },
        ensures
            final(self).wf(),
            final(self)@ == old(self)@.after_read(id.0, t as int, scope@),
    {
        proof {
            lemma_read_inv(self@, id.0, t as int, scope@);
        }
        let ghost b = self@.after_read(id.0, t as int, scope@);
        match &scope {
            Scope::Row(key) => self.tables[t].register_reader(key, id),
            Scope::Rows(filter) => self.tables[t].register_predicate(id, filter.clone()),
        }
        let mut local = self.txns.remove(&id.0).unwrap();
        let ghost l0 = local;
        let read = Read { table: t, scope, observed };
        let ghost r0 = read;
        local.reads.push(read);
        let ghost l1 = local;
        self.txns.insert(id.0, local);
        proof {
            let a = old(self)@;
            assert(l1@.reads =~= l0@.reads.push(r0@));
            assert(self@.tables =~= b.tables);
            assert(self@.txns =~= b.txns);
            assert(self@ =~= b);
            assert forall|x: u64| #[trigger] self.txns@.contains_key(x) implies linked(
                self@.tables,
                x,
                self.txns@[x],
            ) by {
                assert(old(self).txns@.contains_key(x));
                let l = old(self).txns@[x];
                assert forall|u: int, k: Seq<u8>|
                    #![trigger self@.tables[u].slots[k]]
                    0 <= u < a.tables.len() implies self@.tables[u].slots[k].lock
                    == a.tables[u].slots[k].lock by {}
                lemma_still_linked(a.tables, self@.tables, x, l);
                if x == id.0 {
                    assert forall|i: int| 0 <= i < l1.reads@.len() implies (
                    #[trigger] l1.reads@[i]).observed.wf() by {
                        if i < l0.reads@.len() {
                            assert(l1.reads@[i] == l0.reads@[i]);
                        }
                    }
                }
            }
        }
    }

    /// Write, or where that is refused record that the record has been looked at.
    fn write_or_look(
        &mut self,
        id: TxnId,
        t: usize,
        key: IndexKey,
        value: Option<Arc<T>>,
    ) -> (r: Result<()>)
        requires
            old(self).wf(),
            old(self)@.live(id.0),
            t < old(self)@.tables.len(),
            value is Some ==> (*value->Some_0).spec_key() == key@,
        ensures
            final(self).wf(),
            match old(self)@.write_conflict(id.0, t as int, key@, unshared(value)) {
                Some(e) => r == Err::<(), Error>(e) && final(self)@ == old(self)@.after_read(
                    id.0,
                    t as int,
                    ScopeView::Row(key@),
                ),
                None => r is Ok && final(self)@ == old(self)@.after_write(
                    id.0,
                    t as int,
                    key@,
                    unshared(value),
                ),
            },
    {
        let looked_at = key.duplicate();
        match self.write(id, t, key, value) {
            Ok(()) => Ok(()),
            Err(e) => {
                self.record_look(id, t, looked_at);
                Err(e)
            },
        }
    }

    /// Install a new version of `key`'s record, or fail if a unique key is not
    /// to be had, or if the slot is contended or was committed under us.
    fn write(&mut self, id: TxnId, t: usize, key: IndexKey, value: Option<Arc<T>>) -> (r: Result<
        (),
    >)
        requires
            old(self).wf(),
            old(self)@.live(id.0),
            t < old(self)@.tables.len(),
            value is Some ==> (*value->Some_0).spec_key() == key@,
        ensures
            final(self).wf(),
            match old(self)@.write_conflict(id.0, t as int, key@, unshared(value)) {
                Some(e) => r == Err::<(), Error>(e) && final(self)@ == old(self)@,
                None => r is Ok && final(self)@ == old(self)@.after_write(
                    id.0,
                    t as int,
                    key@,
                    unshared(value),
                ),
            },
    {
        let ghost a = self@;
        let ghost tv = self@.tables[t as int];
        let ghost k = key@;
        proof {
            assert(a.txn_ok(id.0));
            assert(tv.sound(a.clock.watermark));
        }
        let acquired: Vec<(usize, IndexKey)> = match &value {
            Some(x) => match claim_all(&mut self.tables[t], &key, x, id) {
                Ok(acquired) => acquired,
                Err(e) => {
                    proof {
                        assert(self@ =~= a);
                        assert(self.wf());
                    }
                    return Err(e);
                },
            },
            None => Vec::new(),
        };
        let ghost mid = self.tables@[t as int]@;
        proof {
            if value is None {
                assert(claims_with(tv.claims, acquired@, id.0) =~= tv.claims);
                assert forall|p: int, ik: Seq<u8>| !#[trigger] acquired_here(
                    acquired@,
                    p,
                    ik,
                ) by {}
            }
        }
        let local = self.txns.get(&id.0).unwrap();
        let first_committer_wins: bool = local.rules.first_committer_wins;
        let snapshot: Timestamp = local.snapshot;
        let writer: Option<TxnId> = if local.rules.validates_reads {
            Some(id)
        } else {
            None
        };
        let mut conflict: bool = false;
        let mut mine: bool = false;
        match self.tables[t].slot(&key) {
            Some(slot) => {
                // First updater wins: whoever takes the slot owns it until it
                // commits or aborts.
                mine = slot.lock == id.0;
                if slot.lock != 0 && !mine {
                    conflict = true;
                }
                // Someone may have committed and let go of the slot since the
                // snapshot. Writing on top of that would lose their update.
                let n: usize = slot.chain.len();
                if first_committer_wins && n > 0 {
                    match Visibility::decode(slot.chain[n - 1].begin) {
                        Visibility::CommittedAt(ts) => {
                            if ts.0 > snapshot.0 {
                                conflict = true;
                            }
                        },
                        Visibility::InFlight(_) => {},
                    }
                }
            },
            None => {},
        }
        assert(conflict == slot_conflict(tv.slots[k], id.0, snapshot.0, first_committer_wins));
        if conflict {
            unclaim(&mut self.tables[t], acquired, id, Ghost(tv.claims));
            proof {
                assert(self.tables@[t as int]@ =~= tv);
                assert(self@.tables =~= a.tables);
                assert(self@ =~= a);
                assert(self.wf());
            }
            return Err(Error::WriteConflict { table: self.tables[t].name() });
        }
        proof {
            lemma_write_inv(a, id.0, t as int, k, value);
        }
        self.tables[t].install(&key, id, value, writer);
        let mut local = self.txns.remove(&id.0).unwrap();
        let ghost l0 = local;
        if !mine {
            local.writes.push((t, key));
        }
        let ghost w1 = local.writes@;
        push_claims(&mut local.claims, t, acquired);
        let ghost l1 = local;
        self.txns.insert(id.0, local);
        proof {
            lemma_shared(value);
            let b = a.after_write(id.0, t as int, k, unshared(value));
            assert(l1@ =~= l0@);
            assert(self@.tables =~= b.tables);
            assert(self@.txns =~= b.txns);
            assert(self@ =~= b);
            if !mine {
                assert(w1.drop_last() =~= l0.writes@);
            }
            lemma_write_linked(a, id.0, t as int, k, value, l0, l1, acquired@);
            assert forall|x: u64| #[trigger] self.txns@.contains_key(x) implies linked(
                self@.tables,
                x,
                self.txns@[x],
            ) by {
                assert(old(self).txns@.contains_key(x));
                assert(a.txns.contains_key(x));
                assert(a.txn_ok(x));
                assert(linked(a.tables, x, old(self).txns@[x]));
            }
        }
        Ok(())
    }
}

/// Note which unique keys of table `t` a statement has claimed.
fn push_claims(
    claims: &mut Vec<(usize, usize, IndexKey)>,
    t: usize,
    acquired: Vec<(usize, IndexKey)>,
)
    ensures
        forall|u: int, p: int, ik: Seq<u8>| #[trigger]
            lists_claim(final(claims)@, u, p, ik) <==> lists_claim(old(claims)@, u, p, ik) || (u
                == t && acquired_here(acquired@, p, ik)),
{
    let mut i: usize = 0;
    while i < acquired.len()
        invariant
            i <= acquired@.len(),
            forall|u: int, p: int, ik: Seq<u8>| #[trigger]
                lists_claim(claims@, u, p, ik) <==> lists_claim(old(claims)@, u, p, ik) || (u == t
                    && acquired_here(acquired@.take(i as int), p, ik)),
        decreases acquired@.len() - i,
    {
        let ghost before = claims@;
        let ghost n = claims@.len() as int;
        claims.push((t, acquired[i].0, acquired[i].1.duplicate()));
        proof {
            let head = acquired@.take(i as int);
            let next = acquired@.take(i + 1);
            assert forall|u: int, p: int, ik: Seq<u8>| #[trigger]
                lists_claim(claims@, u, p, ik) <==> lists_claim(old(claims)@, u, p, ik) || (u == t
                    && acquired_here(next, p, ik)) by {
                assert(lists_claim(before, u, p, ik) <==> lists_claim(old(claims)@, u, p, ik) || (u
                    == t && acquired_here(head, p, ik)));
                if lists_claim(claims@, u, p, ik) {
                    let j = choose|j: int|
                        0 <= j < claims@.len() && (#[trigger] claims@[j]).0 == u && claims@[j].1
                            == p && claims@[j].2@ == ik;
                    if j < n {
                        assert(before[j] == claims@[j]);
                        assert(lists_claim(before, u, p, ik));
                    } else {
                        assert(next[i as int].0 == p && next[i as int].1@ == ik);
                    }
                }
                if lists_claim(before, u, p, ik) {
                    let j = choose|j: int|
                        0 <= j < before.len() && (#[trigger] before[j]).0 == u && before[j].1 == p
                            && before[j].2@ == ik;
                    assert(before[j] == claims@[j]);
                }
                if acquired_here(head, p, ik) {
                    let j = choose|j: int|
                        0 <= j < head.len() && (#[trigger] head[j]).0 == p && head[j].1@ == ik;
                    assert(next[j] == head[j]);
                }
                if u == t && acquired_here(next, p, ik) {
                    let j = choose|j: int|
                        0 <= j < next.len() && (#[trigger] next[j]).0 == p && next[j].1@ == ik;
                    if j < i {
                        assert(next[j] == head[j]);
                        assert(acquired_here(head, p, ik));
                        assert(lists_claim(before, u, p, ik));
                    } else {
                        assert(claims@[n].0 == u && claims@[n].1 == p && claims@[n].2@ == ik);
                    }
                }
            }
        }
        i = i + 1;
    }
    assert(acquired@.take(i as int) =~= acquired@);
}

} // verus!
