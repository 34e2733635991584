use std::collections::HashSet;

use mvcc::hash::{hash_one, FxHasher};

#[test]
fn distinct_keys_mostly_land_in_distinct_shards() {
    // Not a quality claim about the hash, just a check that shard selection
    // is not degenerate — a hasher that ignored the high bits, or returned
    // the key unchanged, would pile sequential keys into few shards.
    const SHARDS: usize = 64;
    let mut counts = [0usize; SHARDS];
    for k in 0u64..64_000 {
        counts[(hash_one(&k) as usize) % SHARDS] += 1;
    }
    let (min, max) = (
        *counts.iter().min().expect("non-empty"),
        *counts.iter().max().expect("non-empty"),
    );
    assert!(
        max < min * 2,
        "shard occupancy is lopsided: {min}..{max} across {SHARDS} shards"
    );
}

#[test]
fn sequential_keys_do_not_collide() {
    let hashes: HashSet<u64> = (0u64..10_000).map(|k| hash_one(&k)).collect();
    assert_eq!(hashes.len(), 10_000, "sequential keys collided");
}

#[test]
fn strings_and_integers_both_mix() {
    assert_ne!(hash_one("alpha"), hash_one("beta"));
    assert_ne!(hash_one(&1u64), hash_one(&2u64));
    // A single-bit difference must not survive into a single-bit difference.
    assert!((hash_one(&1u64) ^ hash_one(&3u64)).count_ones() > 8);
}

#[test]
fn one_word_is_rotated_xored_and_multiplied() {
    let mut h = FxHasher::default();
    assert_eq!(h.finish(), 0);
    h.write_u64(1);
    assert_eq!(h.finish(), 0x517c_c1b7_2722_0a95);
    h.write_u64(2);
    let expected = (0x517c_c1b7_2722_0a95u64.rotate_left(5) ^ 2).wrapping_mul(0x517c_c1b7_2722_0a95);
    assert_eq!(h.finish(), expected);
}

#[test]
fn bytes_are_taken_eight_at_a_time() {
    let mut by_bytes = FxHasher::default();
    by_bytes.write(&[1, 0, 0, 0, 0, 0, 0, 0]);
    let mut by_word = FxHasher::default();
    by_word.write_u64(1);
    assert_eq!(by_bytes.finish(), by_word.finish());
}

#[test]
fn the_hash_of_one_value_is_the_hash_of_writing_it() {
    let mut h = FxHasher::default();
    h.write_u64(99);
    assert_eq!(hash_one(&99u64), h.finish());
}

#[test]
fn every_integer_is_hashed_as_one_word() {
    fn of(f: impl FnOnce(&mut FxHasher)) -> u64 {
        let mut h = FxHasher::default();
        f(&mut h);
        h.finish()
    }
    let five = of(|h| h.write_u64(5));
    assert_eq!(of(|h| h.write_u8(5)), five);
    assert_eq!(of(|h| h.write_u16(5)), five);
    assert_eq!(of(|h| h.write_u32(5)), five);
    assert_eq!(of(|h| h.write_usize(5)), five);
    assert_eq!(of(|h| h.write_i8(5)), five);
    assert_eq!(of(|h| h.write_i16(5)), five);
    assert_eq!(of(|h| h.write_i32(5)), five);
    assert_eq!(of(|h| h.write_i64(5)), five);
    assert_eq!(of(|h| h.write_isize(5)), five);
    assert_eq!(of(|h| h.write_i64(-1)), of(|h| h.write_u64(u64::MAX)));
    assert_eq!(
        of(|h| h.write_u128(5)),
        of(|h| {
            h.write_u64(5);
            h.write_u64(0);
        })
    );
}
