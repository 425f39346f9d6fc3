use contrasleuth::message_hash::message_hash;
use contrasleuth::proof_of_work::{
    expected_target_at, get_current_target, get_expected_target, nonce_meets_target,
    payload_digest, search_nonce, verify_at,
};

#[test]
fn hash_is_deterministic() {
    let a = message_hash(b"payload", 1234);
    let b = message_hash(b"payload", 1234);
    assert_eq!(a, b);
    assert_eq!(a.len(), 64);
}

#[test]
fn hash_depends_on_payload_and_expiration() {
    let a = message_hash(b"payload", 1234);
    assert_ne!(a, message_hash(b"payload", 1235));
    assert_ne!(a, message_hash(b"payloae", 1234));
    assert_ne!(&a[..7], b"payload");
}

#[test]
fn expected_target_values() {
    assert_eq!(get_expected_target(0, 0), 18446744073709551615u64 / 1_000_000);
    assert_eq!(get_expected_target(0, 0), 18446744073709);
    assert_eq!(get_expected_target(1000, 65536), 4611686018427);
    assert_eq!(get_expected_target(0, u64::MAX), 0);
    assert_eq!(get_expected_target(u64::MAX, 0), 0);
}

#[test]
fn target_shrinks_as_time_to_live_grows() {
    let short = get_expected_target(100, 60);
    let long = get_expected_target(100, 86400 * 30);
    assert!(long <= short);
}

#[test]
fn no_target_once_expired() {
    assert_eq!(expected_target_at(b"abc", 100, 100), None);
    assert_eq!(expected_target_at(b"abc", 100, 200), None);
    assert_eq!(expected_target_at(b"abc", 101, 100), Some(get_expected_target(3, 1)));
}

#[test]
fn verification_compares_value_with_target() {
    let payload = b"some payload";
    let digest = payload_digest(payload);
    let value = get_current_target(&digest, 0xdeadbeef);
    let target = expected_target_at(payload, 1000, 10).unwrap();
    assert_eq!(verify_at(payload, 0xdeadbeef, 1000, 10), value <= target);
    assert!(!verify_at(payload, 0xdeadbeef, 10, 10));
}

#[test]
fn current_value_is_not_the_nonce() {
    let digest = payload_digest(b"x");
    let a = get_current_target(&digest, 1);
    let b = get_current_target(&digest, 2);
    assert_ne!(a, b);
    assert_ne!(a, 1);
}

#[test]
fn search_finds_a_nonce_that_meets_the_target() {
    let digest = payload_digest(b"work");
    let nonce = search_nonce(&digest, u64::MAX / 4, 10_000).unwrap();
    assert!(nonce_meets_target(&digest, nonce, u64::MAX / 4));
    assert_eq!(search_nonce(&digest, 0, 0), None);
}
