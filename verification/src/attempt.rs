//! What a run of attempts at one transaction leaves behind.

use vstd::prelude::*;

use crate::chain::{lemma_aborted, lemma_installed, lemma_read_latest, lemma_read_other};
use crate::error::Result;
use crate::isolation::Rules;
use crate::keep::{lemma_detected_inv, lemma_gc_watermark_bounds, lemma_stamped_inv, quieter};
use crate::laws::{committed_record, law_aborts_are_invisible, law_commits_are_atomic, same_view};
use crate::retry::{following, Step, MAX_ATTEMPTS};
use crate::slot::{live_value, rolled_back};
use crate::state::{shared, DbView, ScopeView};
use crate::time::{FOREVER, NOBODY};
use crate::versioned::Versioned;

verus! {

/// What an attempt does before it ends.
#[verifier::reject_recursive_types(T)]
pub enum Move<T: Versioned> {
    Begin { slot: int, rules: Rules },
    Read { id: u64, t: int, scope: ScopeView<T> },
    Write { id: u64, t: int, k: Seq<u8>, value: Option<T> },
}

/// The database lets the attempt do this.
pub open spec fn possible<T: Versioned>(db: DbView<T>, m: Move<T>) -> bool {
    match m {
        Move::Begin { .. } => true,
        Move::Read { id, t, .. } => db.live(id) && 0 <= t < db.tables.len(),
        Move::Write { id, t, k, value } => db.live(id) && 0 <= t < db.tables.len()
            && db.write_conflict(id, t, k, value) is None,
    }
}

/// The database when the attempt has done this.
pub open spec fn moved<T: Versioned>(db: DbView<T>, m: Move<T>) -> DbView<T> {
    match m {
        Move::Begin { slot, rules } => db.after_begin(slot, rules),
        Move::Read { id, t, scope } => db.after_read(id, t, scope),
        Move::Write { id, t, k, value } => db.after_write(id, t, k, value),
    }
}

/// Nothing that an attempt does before it ends is committed: what is committed,
/// now and as of every earlier time, stays the same.
pub proof fn law_attempts_commit_nothing_before_they_end<T: Versioned>(
    db: DbView<T>,
    m: Move<T>,
    t: int,
    k: Seq<u8>,
    s: u64,
)
    requires
        db.inv(),
        possible(db, m),
        0 <= t < db.tables.len(),
        s <= db.clock.watermark,
    ensures
        moved(db, m).clock.watermark == db.clock.watermark,
        committed_record(moved(db, m), t, k, s) == committed_record(db, t, k, s),
{
    let b = moved(db, m);
    let slot = db.tables[t].slots[k];
    let after = b.tables[t].slots[k];
    assert(db.tables[t].sound(db.clock.watermark));
    assert(slot.ok_by(db.clock.watermark));
    match m {
        Move::Write { id, t: u, k: j, value } if u == t && j == k => {
            assert(db.txn_ok(id));
            lemma_installed(slot, id, shared(value), after.chain.last().writer, db.clock.watermark);
            lemma_read_other(slot, s, NOBODY);
            lemma_read_other(after, s, NOBODY);
        },
        _ => {
            assert(after.chain == slot.chain);
        },
    }
}

/// One attempt at a transaction, as it is about to end. Others may have done
/// whatever they did before that.
#[verifier::reject_recursive_types(T)]
pub struct Attempt<T: Versioned, R> {
    /// The database when all statements have run.
    pub db: DbView<T>,
    /// The transaction of this attempt.
    pub id: u64,
    /// What the statements came to. If that is an error the attempt is rolled
    /// back, otherwise it is committed.
    pub said: Result<R>,
}

impl<T: Versioned, R> Attempt<T, R> {
    pub open spec fn ok(self) -> bool {
        self.db.inv() && self.db.live(self.id) && self.db.clock.next < FOREVER
    }

    /// What the attempt comes to.
    pub open spec fn outcome(self) -> Result<R> {
        match self.said {
            Err(_) => self.said,
            Ok(_) => match self.db.commit_error(self.id) {
                Some(e) => Err(e),
                None => self.said,
            },
        }
    }

    /// The database when the attempt has ended.
    pub open spec fn after(self) -> DbView<T> {
        match self.said {
            Ok(_) => self.db.after_commit(self.id),
            Err(_) => self.db.after_abort(self.id),
        }
    }

    /// The attempt has left nothing behind under `k` of table `t`.
    pub open spec fn vanished(self, t: int, k: Seq<u8>) -> bool {
        let after = self.after();
        &&& committed_record(after, t, k, after.clock.watermark) == committed_record(
            self.db,
            t,
            k,
            self.db.clock.watermark,
        )
        &&& after.tables[t].slots[k].lock != self.id
    }

    /// Every other running transaction sees what it saw.
    pub open spec fn unnoticed(self) -> bool {
        forall|r: u64| #[trigger]
            self.db.live(r) && r != self.id ==> same_view(self.db, self.after(), r)
    }

    /// What the attempt wrote under `k` of table `t`, if anything, is committed.
    pub open spec fn prevailed(self, t: int, k: Seq<u8>) -> bool {
        let after = self.after();
        let slot = self.db.tables[t].slots[k];
        committed_record(after, t, k, after.clock.watermark) == if slot.lock == self.id {
            live_value(Some(slot.chain.last()))
        } else {
            committed_record(self.db, t, k, self.db.clock.watermark)
        }
    }
}

/// Each attempt is followed by another if and only if it is to be retried.
pub open spec fn is_run<T: Versioned, R>(attempts: Seq<Attempt<T, R>>) -> bool {
    let n = attempts.len() as int;
    &&& n > 0
    &&& forall|i: int| 0 <= i < n ==> (#[trigger] attempts[i]).ok()
    &&& forall|i: int|
        0 <= i < n ==> (following(i + 1, (#[trigger] attempts[i]).outcome()) is RetryAfter <==> i
            < n - 1)
}

/// A transaction takes effect once or not at all, however often it is attempted.
/// The run ends, and what is returned is what the last attempt came to. Every
/// attempt before it failed with a conflict and left nothing behind. If the last
/// one succeeded, what it wrote is committed; otherwise it too left nothing behind.
/// What leaves nothing behind shows in no other transaction either.
pub proof fn law_only_the_last_attempt_counts<T: Versioned, R>(
    attempts: Seq<Attempt<T, R>>,
    i: int,
    t: int,
    k: Seq<u8>,
)
    requires
        is_run(attempts),
        0 <= i < attempts.len(),
        0 <= t < attempts[i].db.tables.len(),
    ensures
        attempts.len() <= MAX_ATTEMPTS,
        following(attempts.len() as int, attempts.last().outcome()) == Step::Finish(
            attempts.last().outcome(),
        ),
        i < attempts.len() - 1 <==> (attempts[i].outcome() matches Err(e) && e.retriable() && i + 1
            < MAX_ATTEMPTS),
        !attempts[i].after().live(attempts[i].id),
        if attempts[i].outcome() is Ok {
            attempts[i].prevailed(t, k)
        } else {
            attempts[i].vanished(t, k)
        },
        attempts[i].outcome() is Err ==> attempts[i].unnoticed(),
{
    let n = attempts.len() as int;
    if n > MAX_ATTEMPTS {
        let x = attempts[MAX_ATTEMPTS - 1];
        assert(following(MAX_ATTEMPTS as int, x.outcome()) is RetryAfter);
    }
    assert(attempts[n - 1].ok());
    let a = attempts[i];
    assert(a.ok());
    let db = a.db;
    let id = a.id;
    assert(db.txn_ok(id));
    let d = if a.said is Ok && db.needs_validation(id) {
        lemma_detected_inv(db, id);
        assert(quieter(db.tables[t], db.detected(id).0.tables[t]));
        db.detected(id).0
    } else {
        db
    };
    assert(d.tables[t].slots[k].chain == db.tables[t].slots[k].chain && d.tables[t].slots[k].lock
        == db.tables[t].slots[k].lock);
    if a.outcome() is Ok {
        lemma_prevailed(d, id, t, k);
    } else {
        lemma_vanished(d, id, t, k);
        assert forall|r: u64| #[trigger] db.live(r) && r != id implies same_view(
            db,
            a.after(),
            r,
        ) by {
            assert(forall|u: int, j: Seq<u8>|
                0 <= u < db.tables.len() ==> #[trigger] d.tables[u].slots[j].chain
                    == db.tables[u].slots[j].chain);
            assert(same_view(db, d, r));
            law_aborts_are_invisible(d, id, r);
        }
    }
}

proof fn lemma_prevailed<T: Versioned>(db: DbView<T>, id: u64, t: int, k: Seq<u8>)
    requires
        db.inv(),
        db.live(id),
        db.clock.next < FOREVER,
        0 <= t < db.tables.len(),
    ensures
        committed_record(db.committed(id), t, k, db.committed(id).clock.watermark) == (
        if db.tables[t].slots[k].lock == id {
            live_value(Some(db.tables[t].slots[k].chain.last()))
        } else {
            committed_record(db, t, k, db.clock.watermark)
        }),
{
    let now = db.clock.watermark;
    let slot = db.tables[t].slots[k];
    lemma_stamped_inv(db, id);
    lemma_gc_watermark_bounds(db.stamped(id));
    law_commits_are_atomic(db, id, t, k, db.clock.next);
    assert(db.tables[t].sound(now));
    assert(slot.ok_by(now));
    lemma_read_latest(slot, now, now);
    lemma_read_latest(slot, now, db.clock.next);
}

proof fn lemma_vanished<T: Versioned>(db: DbView<T>, id: u64, t: int, k: Seq<u8>)
    requires
        db.inv(),
        db.live(id),
        0 <= t < db.tables.len(),
    ensures
        committed_record(db.rolled_back(id), t, k, db.clock.watermark) == committed_record(
            db,
            t,
            k,
            db.clock.watermark,
        ),
        db.rolled_back(id).tables[t].slots[k].lock != id,
{
    let now = db.clock.watermark;
    let slot = db.tables[t].slots[k];
    assert(db.txn_ok(id));
    assert(db.tables[t].sound(now));
    assert(slot.ok_by(now));
    if slot.lock == id {
        lemma_aborted(slot, now);
        lemma_read_other(slot, now, NOBODY);
        lemma_read_other(slot.aborted(), now, NOBODY);
        assert(rolled_back(slot.aborted().chain) =~= rolled_back(slot.chain));
    }
}

} // verus!
