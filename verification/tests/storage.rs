//! The parts of the store: chains, slot maps, sorted maps, bounds.

use std::sync::Arc;

use mvcc::filter::Bound;
use mvcc::order::{relate, same_bytes, same_text, Relation};
use mvcc::ordered::Ordered;
use mvcc::schema::{Encodable, IndexKey};
use mvcc::slot::{Slot, Version};
use mvcc::slotmap::SlotMap;
use mvcc::time::{Timestamp, TxnId};

fn written(by: TxnId, value: Option<i64>) -> Version<i64> {
    Version {
        begin: by.tagged(),
        end: Timestamp::max_value().raw(),
        value: value.map(Arc::new),
        writer: None,
    }
}

/// Write and commit one version.
fn put(slot: &mut Slot<i64>, by: u64, ts: u64, value: Option<i64>) {
    assert!(slot.try_lock(TxnId(by)));
    slot.install(written(TxnId(by), value));
    slot.commit(TxnId(by), Timestamp(ts));
    slot.unlock(TxnId(by));
}

fn seen(slot: &Slot<i64>, snapshot: u64, reader: u64) -> Option<i64> {
    slot.read(Timestamp(snapshot), TxnId(reader))
        .and_then(|v| v.value.as_ref().map(|x| **x))
}

#[test]
fn a_chain_answers_for_every_snapshot() {
    let mut slot: Slot<i64> = Slot::new();
    put(&mut slot, 1, 10, Some(100));
    put(&mut slot, 2, 20, Some(200));
    put(&mut slot, 3, 30, None);
    assert_eq!(seen(&slot, 9, 0), None);
    assert_eq!(seen(&slot, 10, 0), Some(100));
    assert_eq!(seen(&slot, 19, 0), Some(100));
    assert_eq!(seen(&slot, 20, 0), Some(200));
    assert_eq!(seen(&slot, 29, 0), Some(200));
    assert_eq!(seen(&slot, 30, 0), None);
}

#[test]
fn an_uncommitted_version_is_its_author_s_alone() {
    let mut slot: Slot<i64> = Slot::new();
    put(&mut slot, 1, 10, Some(100));
    assert!(slot.try_lock(TxnId(7)));
    slot.install(written(TxnId(7), Some(700)));
    assert_eq!(seen(&slot, 50, 7), Some(700));
    assert_eq!(seen(&slot, 50, 8), Some(100));
    let (own, other) = slot.read_pair(Timestamp(50), TxnId(7));
    assert_eq!(own.and_then(|v| v.value.clone()), Some(Arc::new(700)));
    assert_eq!(other.and_then(|v| v.value.clone()), Some(Arc::new(100)));
    slot.abort(TxnId(7));
    slot.unlock(TxnId(7));
    assert_eq!(seen(&slot, 50, 7), Some(100));
}

#[test]
fn the_first_to_lock_a_slot_has_it() {
    let mut slot: Slot<i64> = Slot::new();
    assert!(slot.try_lock(TxnId(1)));
    assert!(slot.try_lock(TxnId(1)));
    assert!(!slot.try_lock(TxnId(2)));
    slot.unlock(TxnId(2));
    assert!(!slot.try_lock(TxnId(2)));
    slot.unlock(TxnId(1));
    assert!(slot.try_lock(TxnId(2)));
}

#[test]
fn pruning_drops_what_no_snapshot_reaches() {
    let mut slot: Slot<i64> = Slot::new();
    put(&mut slot, 1, 10, Some(100));
    put(&mut slot, 2, 20, Some(200));
    put(&mut slot, 3, 30, Some(300));
    assert!(!slot.needs_prune(Timestamp(19)));
    assert!(slot.needs_prune(Timestamp(20)));
    slot.prune(Timestamp(20));
    assert_eq!(seen(&slot, 20, 0), Some(200));
    assert_eq!(seen(&slot, 30, 0), Some(300));
    assert_eq!(seen(&slot, 15, 0), None);
}

#[test]
fn a_deleted_record_is_emptied() {
    let mut slot: Slot<i64> = Slot::new();
    put(&mut slot, 1, 10, Some(100));
    put(&mut slot, 2, 20, None);
    slot.prune(Timestamp(20));
    assert!(slot.read_committed_now(TxnId(0)).is_none());
    assert!(!slot.needs_prune(Timestamp(99)));
}

#[test]
fn the_current_version_ignores_snapshots() {
    let mut slot: Slot<i64> = Slot::new();
    put(&mut slot, 1, 10, Some(100));
    assert!(slot.try_lock(TxnId(7)));
    slot.install(written(TxnId(7), Some(700)));
    let mine = slot.read_committed_now(TxnId(7)).unwrap().share();
    let theirs = slot.read_committed_now(TxnId(8)).unwrap().share();
    assert_eq!(mine.value, Some(Arc::new(700)));
    assert_eq!(theirs.value, Some(Arc::new(100)));
    assert!(theirs.visible_to(Timestamp(10), TxnId(8)));
}

#[test]
fn a_slot_map_keeps_every_key_apart_as_it_grows() {
    let mut map: SlotMap<i64> = SlotMap::new();
    for k in 0..5_000u64 {
        put(map.get_or_create(&k.encode()), 1, k + 1, Some(k as i64));
    }
    for k in 0..5_000u64 {
        assert_eq!(seen(map.get(&k.encode()).unwrap(), 10_000, 0), Some(k as i64));
    }
    assert!(map.get(&5_000u64.encode()).is_none());
}

#[test]
fn compacting_a_slot_map_drops_empty_slots_alone() {
    let mut map: SlotMap<i64> = SlotMap::new();
    for k in 0..500u64 {
        let slot = map.get_or_create(&k.encode());
        if k % 5 == 0 {
            put(slot, 1, 1, Some(k as i64));
        }
    }
    assert_eq!(map.compact(), 400);
    for k in 0..500u64 {
        assert_eq!(map.get(&k.encode()).is_some(), k % 5 == 0);
    }
    assert_eq!(map.compact(), 0);
}

#[test]
fn sweeping_visits_one_shard_after_another() {
    let mut map: SlotMap<i64> = SlotMap::new();
    for k in 0..100u64 {
        let slot = map.get_or_create(&k.encode());
        put(slot, 1, 1, Some(1));
        put(slot, 2, 2, Some(2));
    }
    for round in 0..64 {
        map.sweep(round, Timestamp(2));
    }
    for k in 0..100u64 {
        let slot = map.get(&k.encode()).unwrap();
        assert_eq!(seen(slot, 1, 0), None);
        assert_eq!(seen(slot, 2, 0), Some(2));
    }
}

#[test]
fn a_sorted_map_finds_replaces_and_forgets() {
    let mut map: Ordered<u8> = Ordered::new();
    for k in [5u8, 1, 9, 3] {
        map.insert(k.encode(), k);
    }
    map.insert(3u8.encode(), 33);
    assert_eq!(map.get(&3u8.encode()), Some(&33));
    assert_eq!(map.get(&4u8.encode()), None);
    assert_eq!(map.find(&5u8.encode()), (2, true));
    assert_eq!(map.find(&4u8.encode()), (2, false));
    assert_eq!(map.seek(&9u8.encode()), 3);
    assert_eq!(map.remove(&1u8.encode()), Some(1));
    assert_eq!(map.remove(&1u8.encode()), None);
    assert_eq!(map.seek(&9u8.encode()), 2);
}

#[test]
fn bounds_admit_their_side() {
    let five = 5u8.encode();
    let included: Bound<IndexKey> = Bound::Included(5u8).encode();
    let excluded: Bound<IndexKey> = Bound::Excluded(5u8).encode();
    let open: Bound<IndexKey> = Bound::<u8>::Unbounded.encode();
    assert!(included.admits_from(&five) && included.admits_to(&five));
    assert!(!excluded.admits_from(&five) && !excluded.admits_to(&five));
    assert!(excluded.admits_from(&6u8.encode()) && excluded.admits_to(&4u8.encode()));
    assert!(open.admits_from(&five) && open.admits_to(&five));
}

#[test]
fn byte_strings_compare_byte_by_byte() {
    assert!(matches!(relate(&vec![1, 2], &vec![1, 2, 0]), Relation::Less));
    assert!(matches!(relate(&vec![1, 2], &vec![1, 2]), Relation::Equal));
    assert!(matches!(relate(&vec![2], &vec![1, 255]), Relation::Greater));
    assert!(same_bytes(&[1, 2], &[1, 2]) && !same_bytes(&[1, 2], &[1, 3]));
    assert!(same_text("tag", "tag") && !same_text("tag", "tags"));
}
