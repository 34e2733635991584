//! Isolation levels as types.
//!
//! The level is a type parameter of a transaction rather than a runtime choice,
//! and every behavioural difference is a constant of the [`IsolationLevel`]
//! trait:
//!
//! | level              | snapshot taken | first committer wins | reads validated |
//! |--------------------|----------------|----------------------|-----------------|
//! | [`ReadCommitted`]  | per statement  | no                   | no              |
//! | [`RepeatableRead`] | once, at begin | yes                  | no              |
//! | [`Snapshot`]       | once, at begin | yes                  | no              |
//! | [`Serializable`]   | once, at begin | yes                  | yes             |

use vstd::prelude::*;

use crate::tracker::{NoTracking, ReadTracker, SsiTracker};

verus! {

/// Keeps the set of levels closed: a new one needs engine support.
pub trait Sealed {

}

/// A transaction isolation level.
pub trait IsolationLevel: Sealed + Sized {
    /// Human-readable name, used in messages.
    const NAME: &'static str;

    /// Whether a fresh snapshot is taken before each statement rather than once
    /// at `begin`.
    const REFRESH_SNAPSHOT_PER_STATEMENT: bool;

    /// Whether a write must fail when someone committed to the same record
    /// after this transaction's snapshot. False only for `ReadCommitted`, which
    /// re-reads the latest version before writing.
    const FIRST_COMMITTER_WINS: bool;

    /// Whether reads are recorded and checked again at commit. True only for
    /// `Serializable`.
    const VALIDATES_READS: bool;

    /// Per-transaction read bookkeeping. [`NoTracking`] for every level except
    /// `Serializable`.
    type ReadTracker: ReadTracker;
}

/// Each statement sees everything committed before that statement started.
///
/// A writer never aborts on a stale snapshot because it re-reads the latest
/// version first. Non-repeatable reads and phantoms are visible.
#[derive(Clone, Copy, Default, Debug)]
pub struct ReadCommitted;

/// A single snapshot for the whole transaction; repeated reads of the same key
/// return the same value.
///
/// The same mechanism as [`Snapshot`]; a separate type so that code can state
/// its intent.
#[derive(Clone, Copy, Default, Debug)]
pub struct RepeatableRead;

/// Full snapshot isolation. The default.
///
/// Reads wait for no writer and never abort. Writes fail with a write conflict if
/// another transaction committed a change to the same key after this
/// transaction's snapshot. Permits write skew.
#[derive(Clone, Copy, Default, Debug)]
pub struct Snapshot;

/// Snapshot isolation with read/write conflict detection on top.
///
/// A transaction with a conflict in both directions fails with a serialization
/// failure even when no two transactions wrote the same key; retry is expected.
#[derive(Clone, Copy, Default, Debug)]
pub struct Serializable;

impl Sealed for ReadCommitted {

}

impl Sealed for RepeatableRead {

}

impl Sealed for Snapshot {

}

impl Sealed for Serializable {

}

impl IsolationLevel for ReadCommitted {
    const NAME: &'static str = "ReadCommitted";

    const REFRESH_SNAPSHOT_PER_STATEMENT: bool = true;

    const FIRST_COMMITTER_WINS: bool = false;

    const VALIDATES_READS: bool = false;

    type ReadTracker = NoTracking;
}

impl IsolationLevel for RepeatableRead {
    const NAME: &'static str = "RepeatableRead";

    const REFRESH_SNAPSHOT_PER_STATEMENT: bool = false;

    const FIRST_COMMITTER_WINS: bool = true;

    const VALIDATES_READS: bool = false;

    type ReadTracker = NoTracking;
}

impl IsolationLevel for Snapshot {
    const NAME: &'static str = "Snapshot";

    const REFRESH_SNAPSHOT_PER_STATEMENT: bool = false;

    const FIRST_COMMITTER_WINS: bool = true;

    const VALIDATES_READS: bool = false;

    type ReadTracker = NoTracking;
}

impl IsolationLevel for Serializable {
    const NAME: &'static str = "Serializable";

    const REFRESH_SNAPSHOT_PER_STATEMENT: bool = false;

    const FIRST_COMMITTER_WINS: bool = true;

    const VALIDATES_READS: bool = true;

    type ReadTracker = SsiTracker;
}

/// The constants of one level, as a value the engine keeps beside a running
/// transaction.
#[derive(Clone, Copy, PartialEq, Eq, Debug, Structural)]
pub struct Rules {
    pub refresh_snapshot_per_statement: bool,
    pub first_committer_wins: bool,
    pub validates_reads: bool,
}

/// The rules of level `I`.
pub open spec fn rules_of<I: IsolationLevel>() -> Rules {
    Rules {
        refresh_snapshot_per_statement: I::REFRESH_SNAPSHOT_PER_STATEMENT,
        first_committer_wins: I::FIRST_COMMITTER_WINS,
        validates_reads: I::VALIDATES_READS,
    }
}

impl Rules {
    /// The rules of level `I`.
    pub fn of<I: IsolationLevel>() -> (r: Rules)
        ensures
            r == rules_of::<I>(),
    {
        Rules {
            refresh_snapshot_per_statement: I::REFRESH_SNAPSHOT_PER_STATEMENT,
            first_committer_wins: I::FIRST_COMMITTER_WINS,
            validates_reads: I::VALIDATES_READS,
        }
    }
}

/// The four levels differ in their constants and in nothing else: only
/// `ReadCommitted` refreshes its snapshot and only it skips the
/// first-committer-wins check, and only `Serializable` validates reads.
pub proof fn law_levels_differ_only_in_their_constants()
    ensures
        rules_of::<ReadCommitted>() == (Rules {
            refresh_snapshot_per_statement: true,
            first_committer_wins: false,
            validates_reads: false,
        }),
        rules_of::<RepeatableRead>() == rules_of::<Snapshot>(),
        rules_of::<Snapshot>() == (Rules {
            refresh_snapshot_per_statement: false,
            first_committer_wins: true,
            validates_reads: false,
        }),
        rules_of::<Serializable>() == (Rules {
            refresh_snapshot_per_statement: false,
            first_committer_wins: true,
            validates_reads: true,
        }),
{
}

/// A level is known by its name.
pub proof fn law_levels_are_named()
    ensures
        ReadCommitted::NAME == "ReadCommitted",
        RepeatableRead::NAME == "RepeatableRead",
        Snapshot::NAME == "Snapshot",
        Serializable::NAME == "Serializable",
{
}

/// The rules that a transaction is run by are those of its level.
pub proof fn law_rules_are_those_of_the_level<I: IsolationLevel>()
    ensures
        forall|r: Rules| #[trigger]
            call_ensures(Rules::of::<I>, (), r) ==> r.refresh_snapshot_per_statement
                == I::REFRESH_SNAPSHOT_PER_STATEMENT && r.first_committer_wins
                == I::FIRST_COMMITTER_WINS && r.validates_reads == I::VALIDATES_READS,
{
}

} // verus!
