use std::mem::size_of;

use mvcc::isolation::{
    IsolationLevel, ReadCommitted, RepeatableRead, Rules, Serializable, Snapshot,
};
use mvcc::time::{Timestamp, TxnId};
use mvcc::tracker::{NoTracking, ReadTracker, SlotRef, SsiTracker};

#[test]
fn isolation_the_levels_differ_only_in_their_declared_constants() {
    // The engine branches on these, so they are the whole behavioural
    // difference between the levels. Asserting them here means a typo in a
    // level's constants fails a test rather than silently downgrading someone's
    // isolation.
    assert!(ReadCommitted::REFRESH_SNAPSHOT_PER_STATEMENT);
    assert!(!Snapshot::REFRESH_SNAPSHOT_PER_STATEMENT);
    assert!(!RepeatableRead::REFRESH_SNAPSHOT_PER_STATEMENT);
    assert!(!Serializable::REFRESH_SNAPSHOT_PER_STATEMENT);

    assert!(!ReadCommitted::FIRST_COMMITTER_WINS);
    assert!(Snapshot::FIRST_COMMITTER_WINS);
    assert!(Serializable::FIRST_COMMITTER_WINS);

    assert!(!Snapshot::VALIDATES_READS);
    assert!(!RepeatableRead::VALIDATES_READS);
    assert!(
        Serializable::VALIDATES_READS,
        "this is what stops write skew"
    );
}

#[test]
fn the_levels_differ_only_in_their_declared_constants() {
    assert!(ReadCommitted::REFRESH_SNAPSHOT_PER_STATEMENT);
    assert!(!Snapshot::REFRESH_SNAPSHOT_PER_STATEMENT);
    assert!(!RepeatableRead::REFRESH_SNAPSHOT_PER_STATEMENT);
    assert!(!Serializable::REFRESH_SNAPSHOT_PER_STATEMENT);

    assert!(!ReadCommitted::FIRST_COMMITTER_WINS);
    assert!(Snapshot::FIRST_COMMITTER_WINS);
    assert!(RepeatableRead::FIRST_COMMITTER_WINS);
    assert!(Serializable::FIRST_COMMITTER_WINS);

    assert!(!ReadCommitted::VALIDATES_READS);
    assert!(!Snapshot::VALIDATES_READS);
    assert!(!RepeatableRead::VALIDATES_READS);
    assert!(
        Serializable::VALIDATES_READS,
        "this is what stops write skew"
    );
}

#[test]
fn no_tracking_is_zero_sized() {
    assert_eq!(size_of::<NoTracking>(), 0);
}

#[test]
fn ssi_aborts_only_pivots() {
    let mut t = SsiTracker::default();
    assert!(t.validate());

    t.note_inbound_conflict(TxnId(1));
    assert!(t.validate(), "an inbound edge alone is not a cycle");

    t.note_outbound_conflict(TxnId(2));
    assert!(!t.validate(), "in + out is a dangerous structure");
}

#[test]
fn levels_are_named_after_their_types() {
    assert_eq!(ReadCommitted::NAME, "ReadCommitted");
    assert_eq!(RepeatableRead::NAME, "RepeatableRead");
    assert_eq!(Snapshot::NAME, "Snapshot");
    assert_eq!(Serializable::NAME, "Serializable");
}

#[test]
fn rules_hold_the_constants_of_a_level() {
    let rules = Rules::of::<Serializable>();
    assert!(!rules.refresh_snapshot_per_statement);
    assert!(rules.first_committer_wins);
    assert!(rules.validates_reads);
    assert_eq!(Rules::of::<Snapshot>(), Rules::of::<RepeatableRead>());
    assert_ne!(Rules::of::<Snapshot>(), Rules::of::<ReadCommitted>());
}

#[test]
fn only_the_serializable_tracker_remembers_reads() {
    let mut t = SsiTracker::default();
    t.observe(SlotRef(4), Timestamp(9));
    assert_eq!(t.reads(), &[(SlotRef(4), Timestamp(9))]);
    assert!(!t.is_pivot());

    let mut n = NoTracking;
    n.observe(SlotRef(4), Timestamp(9));
    n.note_inbound_conflict(TxnId(1));
    n.note_outbound_conflict(TxnId(2));
    assert!(n.validate());
}
