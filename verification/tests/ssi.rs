use mvcc::ssi::{Readers, TxnState, TxnTable};
use mvcc::time::{Timestamp, TxnId};

fn state(id: u64) -> TxnState {
    TxnState::new(TxnId(id), Timestamp(0))
}

#[test]
fn a_transaction_is_a_pivot_only_with_both_edges() {
    let mut t = state(1);
    assert!(!t.is_pivot());
    t.set_out_conflict();
    assert!(!t.is_pivot(), "an outgoing edge alone is not a cycle");
    t.set_in_conflict();
    assert!(t.is_pivot());
}

#[test]
fn committed_readers_expire_only_once_the_watermark_passes() {
    let mut t = state(1);
    assert!(!t.is_expired(Timestamp(100)), "still running");

    t.mark_committed(Timestamp(50));
    assert!(!t.is_expired(Timestamp(49)), "a live snapshot still predates it");
    assert!(t.is_expired(Timestamp(50)));
    assert!(t.is_expired(Timestamp(51)));
}

#[test]
fn aborted_readers_expire_immediately() {
    let mut t = state(1);
    t.mark_aborted();
    assert!(t.is_expired(Timestamp(0)));
}

#[test]
fn registration_is_idempotent_and_excludes_the_writer() {
    let mut states = TxnTable::new();
    let mut readers = Readers::new();
    let a = state(1);
    let mut b = state(2);
    states.put(a);
    states.put(b);
    readers.register(a.id());
    readers.register(a.id());
    readers.register(b.id());
    assert_eq!(readers.len(), 2, "duplicate registration");

    assert!(readers.has_other_reader(TxnId(1), &states, Timestamp(0)), "b reads it");
    assert!(!readers.has_other_reader(TxnId(3), &states, Timestamp(0)) == false);

    // With b expired, only the writer's own read remains.
    b.mark_aborted();
    states.put(b);
    assert!(!readers.has_other_reader(TxnId(1), &states, Timestamp(0)));
}

#[test]
fn readers_are_named_in_the_order_in_which_they_came() {
    let mut states = TxnTable::new();
    let mut readers = Readers::new();
    for id in [4, 2, 9, 2, 7, 4] {
        states.put(state(id));
        readers.register(TxnId(id));
    }
    assert_eq!(readers.ids, vec![4, 2, 9, 7]);
    assert_eq!(readers.others(TxnId(9), &states, Timestamp(0)), vec![4, 2, 7]);

    let mut gone = state(2);
    gone.mark_aborted();
    states.put(gone);
    assert_eq!(readers.others(TxnId(4), &states, Timestamp(0)), vec![9, 7]);
    assert_eq!(readers.ids, vec![4, 9, 7]);
}

#[test]
fn states_are_forgotten_once_they_expire() {
    let mut states = TxnTable::new();
    let mut done = state(1);
    done.mark_committed(Timestamp(5));
    states.put(done);
    states.put(state(2));
    states.purge(Timestamp(4));
    assert_eq!(states.get(1), Some(done));
    states.purge(Timestamp(5));
    assert_eq!(states.get(1), None);
    assert_eq!(states.get(2), Some(state(2)));
}

#[test]
fn a_state_reports_what_happened_to_it() {
    let mut t = TxnState::new(TxnId(4), Timestamp(9));
    assert_eq!(t.id(), TxnId(4));
    assert_eq!(t.snapshot(), Timestamp(9));
    assert!(!t.is_committed() && !t.is_aborted() && !t.has_out_conflict());
    t.set_out_conflict();
    assert!(t.has_out_conflict());
    t.mark_committed(Timestamp(10));
    assert!(t.is_committed() && !t.is_aborted());
    t.mark_aborted();
    assert!(t.is_aborted());
}
