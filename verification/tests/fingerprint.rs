use lockwatch::fingerprint::{fingerprint_from_hash, fingerprint_query};
use std::collections::hash_map::DefaultHasher;
use std::hash::{Hash, Hasher};

#[test]
fn the_fingerprint_is_the_default_hash_of_the_text() {
    for query in ["", "SELECT 1", "UPDATE accounts SET balance = 0 WHERE id = 1"] {
        let mut hasher = DefaultHasher::new();
        query.hash(&mut hasher);
        assert_eq!(fingerprint_query(query), hasher.finish() as i64);
    }
}

#[test]
fn literals_and_white_space_are_not_normalized() {
    assert_eq!(fingerprint_query("SELECT 1"), fingerprint_query("SELECT 1"));
    assert_ne!(fingerprint_query("SELECT 1"), fingerprint_query("SELECT 2"));
    assert_ne!(fingerprint_query("SELECT 1"), fingerprint_query("SELECT  1"));
}

#[test]
fn the_bits_of_a_hash_are_kept() {
    let top = 1u64 << 63;
    for hash in [0, 1, top - 1, top, top + 1, u64::MAX] {
        assert_eq!(fingerprint_from_hash(hash), hash as i64);
        assert_eq!(fingerprint_from_hash(hash) as u64, hash);
    }
}
