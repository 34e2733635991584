use mvcc::oracle::{Oracle, OracleConfig, SHARDS};
use mvcc::time::{Timestamp, TxnId};

#[test]
fn oracle_watermark_waits_for_out_of_order_installs() {
    let mut o = Oracle::new(OracleConfig::Centralised);
    let first = o.begin_commit();
    let second = o.begin_commit();
    assert!(first < second);

    // The later commit finishes installing first. The watermark must not
    // advance past it, or a reader would see `second` without `first`.
    o.publish(second);
    assert!(
        o.statement_snapshot() < first,
        "watermark passed a commit that is still installing"
    );

    o.publish(first);
    assert!(
        o.statement_snapshot() >= second,
        "watermark should now cover both"
    );
}

#[test]
fn watermark_crosses_a_long_run_in_one_go() {
    let mut o = Oracle::new(OracleConfig::Centralised);
    let stamps: Vec<_> = (0..100).map(|_| o.begin_commit()).collect();
    // Published in reverse, so only the very last call can move anything.
    for ts in stamps.iter().rev() {
        o.publish(*ts);
    }
    assert_eq!(o.statement_snapshot(), *stamps.last().unwrap());
}

#[test]
fn oracle_gc_watermark_is_pinned_by_the_oldest_reader() {
    let mut o = Oracle::new(OracleConfig::Centralised);
    let ts = o.begin_commit();
    o.publish(ts);

    let old = o.next_txn_id(0);
    let old_reader = o.begin_snapshot(old);
    let commit = o.begin_commit();
    o.publish(commit);
    let new = o.next_txn_id(0);
    let _new_reader = o.begin_snapshot(new);

    assert_eq!(o.gc_watermark(), old_reader, "the oldest reader pins GC");

    o.release_snapshot(old, old_reader);
    assert!(
        o.gc_watermark() > old_reader,
        "releasing it lets GC advance"
    );
}

#[test]
fn transactions_sharing_a_snapshot_are_counted_separately() {
    // Every transaction that begins before the first commit gets the same
    // snapshot value. The two ids are chosen to land in the same shard, so this
    // exercises the collision rather than accidentally testing two shards.
    let mut o = Oracle::new(OracleConfig::Centralised);
    let a = TxnId(1);
    let b = TxnId(1 + SHARDS);
    let sa = o.begin_snapshot(a);
    let sb = o.begin_snapshot(b);
    assert_eq!(sa, sb, "both began before anything committed");
    assert_eq!(o.active_count(), 2);

    let ts = o.begin_commit();
    o.publish(ts);

    o.release_snapshot(a, sa);
    assert_eq!(o.active_count(), 1, "b is still running");
    assert_eq!(o.gc_watermark(), sb, "b's snapshot must still pin GC");

    o.release_snapshot(b, sb);
    assert_eq!(o.active_count(), 0);
    assert!(o.gc_watermark() > sb, "now GC may advance");
}

#[test]
fn txn_ids_and_timestamps_never_collide() {
    // The two are counted apart, and told apart by the tag that an id carries
    // wherever a timestamp could stand.
    let mut o = Oracle::new(OracleConfig::Centralised);
    let id = o.next_txn_id(0);
    let ts = o.begin_commit();
    assert_ne!(id.tagged(), ts.raw());
}

#[test]
fn ids_of_different_slots_never_meet() {
    let mut o = Oracle::new(OracleConfig::Centralised);
    assert_eq!(o.next_txn_id(0), TxnId(1));
    assert_eq!(o.next_txn_id(1), TxnId(2));
    assert_eq!(o.next_txn_id(15), TxnId(16));
    assert_eq!(o.next_txn_id(0), TxnId(17));
    assert_eq!(o.next_txn_id(0), TxnId(33));
}

#[test]
fn a_restarted_counter_never_repeats_a_timestamp() {
    let mut o = Oracle::new(OracleConfig::default());
    assert_eq!(o.config(), OracleConfig::Centralised);
    o.resume_after(Timestamp(41));
    assert_eq!(o.statement_snapshot(), Timestamp(41));
    assert_eq!(o.begin_commit(), Timestamp(42));
}
