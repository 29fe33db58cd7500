use std::cmp::Ordering;
use trie_persistence::nibbles::{cmp_bytes, Nibbles, B256};

#[test]
fn lexicographic_byte_order() {
    assert_eq!(cmp_bytes(&[1, 2], &[1, 3]), Ordering::Less);
    assert_eq!(cmp_bytes(&[1], &[1, 0]), Ordering::Less);
    assert_eq!(cmp_bytes(&[2], &[1, 9]), Ordering::Greater);
    assert_eq!(cmp_bytes(&[], &[]), Ordering::Equal);
}

#[test]
fn successor_is_next_path() {
    let p = Nibbles(vec![3, 4]);
    assert_eq!(p.successor(), Nibbles(vec![3, 4, 0]));
    assert_eq!(Nibbles::new().successor(), Nibbles(vec![0]));
    assert!(Nibbles::new().is_empty());
    assert_eq!(p.len(), 2);
}

#[test]
fn hashes_compare_by_bytes() {
    assert!(B256([1; 32]).same_as(&B256([1; 32])));
    assert!(!B256([1; 32]).same_as(&B256([2; 32])));
}
