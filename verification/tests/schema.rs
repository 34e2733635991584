use mvcc::schema::{Encodable, Index, IndexKey, TableId};

fn key<T: Encodable>(v: T) -> Vec<u8> {
    v.encode().0
}

#[test]
fn schema_unsigned_keys_sort_numerically() {
    assert!(key(1u64) < key(2u64));
    assert!(key(255u64) < key(256u64));
}

#[test]
fn schema_signed_keys_sort_with_negatives_first() {
    assert!(key(-1i64) < key(0i64));
    assert!(key(i64::MIN) < key(i64::MAX));
    assert!(key(-5i64) < key(-4i64));
}

#[test]
fn schema_string_prefixes_sort_before_extensions() {
    assert!(key("ab".to_string()) < key("abc".to_string()));
    assert!(key("a".to_string()) < key("b".to_string()));
}

#[test]
fn schema_embedded_nul_cannot_forge_a_separator() {
    // "a\0b" must not compare equal to the composite ("a", "b").
    assert_ne!(key("a\0b".to_string()), {
        let mut v = key("a".to_string());
        v.extend_from_slice(&key("b".to_string()));
        v
    });
}

#[test]
fn unsigned_keys_sort_numerically() {
    assert!(key(1u64) < key(2u64));
    assert!(key(255u64) < key(256u64));
    assert!(key(255u16) < key(256u16));
    assert!(key(u128::from(u64::MAX)) < key(u128::MAX));
}

#[test]
fn signed_keys_sort_with_negatives_first() {
    assert!(key(-1i64) < key(0i64));
    assert!(key(i64::MIN) < key(i64::MAX));
    assert!(key(-5i64) < key(-4i64));
    assert!(key(i8::MIN) < key(-1i8));
    assert!(key(i128::MIN) < key(0i128));
}

#[test]
fn string_prefixes_sort_before_extensions() {
    assert!(key("ab".to_string()) < key("abc".to_string()));
    assert!(key("a".to_string()) < key("b".to_string()));
    assert!(key(String::new()) < key("a".to_string()));
    assert!(key("ab".to_string()) < key("ab\0".to_string()));
}

#[test]
fn embedded_nul_cannot_forge_a_separator() {
    assert_ne!(key("a\0b".to_string()), {
        let mut v = key("a".to_string());
        v.extend_from_slice(&key("b".to_string()));
        v
    });
    assert_ne!(key("a\0".to_string()), key("a".to_string()));
}

#[test]
fn integers_encode_most_significant_byte_first() {
    assert_eq!(key(7u8), vec![7]);
    assert_eq!(key(0x0102u16), vec![1, 2]);
    assert_eq!(key(0x0102_0304u32), vec![1, 2, 3, 4]);
    assert_eq!(key(258u64), vec![0, 0, 0, 0, 0, 0, 1, 2]);
    assert_eq!(key(1u128)[15], 1);
    assert_eq!(key(1u128).len(), 16);
}

#[test]
fn signed_integers_encode_with_the_sign_bit_flipped() {
    assert_eq!(key(0i8), vec![0x80]);
    assert_eq!(key(-1i8), vec![0x7f]);
    assert_eq!(key(i16::MIN), vec![0, 0]);
    assert_eq!(key(i32::MAX), vec![0xff, 0xff, 0xff, 0xff]);
    assert_eq!(key(1i64), vec![0x80, 0, 0, 0, 0, 0, 0, 1]);
    assert_eq!(key(-1i128)[0], 0x7f);
}

#[test]
fn text_is_escaped_and_closed() {
    assert_eq!(key("ab".to_string()), vec![b'a', b'b', 0, 0]);
    assert_eq!(key("a\0b".to_string()), vec![b'a', 0, 0xff, b'b', 0, 0]);
    assert_eq!(key(String::new()), vec![0, 0]);
}

#[test]
fn keys_and_handles_carry_what_they_were_made_with() {
    let k = IndexKey(vec![1, 2]);
    assert_eq!(k.as_bytes(), &[1, 2]);
    assert_eq!(k.duplicate(), k);
    let i: Index<u64, String> = Index::new(3, "tag");
    let j = i.clone();
    assert_eq!(j.position, 3);
    assert_eq!(j.name, "tag");
    assert!(TableId(1) < TableId(2));
}

#[test]
fn composite_keys_sort_by_their_parts() {
    let pair = |a: &str, b: &str| {
        let mut v = key(a.to_string());
        v.extend_from_slice(&key(b.to_string()));
        v
    };
    assert!(pair("a", "z") < pair("ab", "a"));
    assert!(pair("a", "b") < pair("a", "c"));
    assert!(pair("a\0", "a") > pair("a", "z"));
}
