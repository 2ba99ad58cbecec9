use mini_lsm::key::{key_equal, key_less, key_less_eq, key_to_vec};

#[test]
fn keys_compare_byte_by_byte() {
    assert!(key_less(b"a", b"b"));
    assert!(!key_less(b"b", b"a"));
    assert!(!key_less(b"a", b"a"));
    assert!(key_less(b"a", b"aa"));
    assert!(!key_less(b"aa", b"a"));
    assert!(key_less(b"", b"a"));
    assert!(!key_less(b"", b""));
    assert!(key_less(&[0x7f], &[0x80]));
    assert!(key_less(b"ab", b"b"));
}

#[test]
fn key_equality_and_order() {
    assert!(key_equal(b"abc", b"abc"));
    assert!(!key_equal(b"abc", b"abd"));
    assert!(!key_equal(b"abc", b"ab"));
    assert!(key_less_eq(b"abc", b"abc"));
    assert!(key_less_eq(b"abc", b"abd"));
    assert!(!key_less_eq(b"abd", b"abc"));
    assert_eq!(key_to_vec(b"xyz"), b"xyz".to_vec());
}
