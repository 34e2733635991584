use mvcc::time::{Timestamp, TxnId, Visibility};

#[test]
fn tagged_txn_ids_round_trip() {
    let id = TxnId(12345);
    assert_eq!(Visibility::decode(id.tagged()), Visibility::InFlight(id));
}

#[test]
fn commit_timestamps_round_trip() {
    let ts = Timestamp(999);
    assert_eq!(Visibility::decode(ts.raw()), Visibility::CommittedAt(ts));
}

#[test]
fn own_writes_are_visible_to_their_author() {
    let me = TxnId(7);
    let someone_else = TxnId(8);
    let v = Visibility::decode(me.tagged());
    assert!(v.reached(Timestamp::zero(), me));
    assert!(!v.reached(Timestamp::max_value(), someone_else));
}

#[test]
fn max_timestamp_does_not_collide_with_in_flight_tag() {
    assert!(matches!(
        Visibility::decode(Timestamp::max_value().raw()),
        Visibility::CommittedAt(_)
    ));
}

#[test]
fn a_commit_is_reached_from_its_own_timestamp_on() {
    let v = Visibility::decode(Timestamp(10).raw());
    assert!(!v.reached(Timestamp(9), TxnId(1)));
    assert!(v.reached(Timestamp(10), TxnId(1)));
    assert!(v.reached(Timestamp(11), TxnId::none()));
}

#[test]
fn the_tag_is_the_top_bit() {
    assert_eq!(TxnId(5).tagged(), 0x8000_0000_0000_0005);
    assert_eq!(TxnId::none(), TxnId(0));
    assert_eq!(Timestamp::zero(), Timestamp(0));
    assert_eq!(Timestamp::max_value(), Timestamp(0x7fff_ffff_ffff_ffff));
}
