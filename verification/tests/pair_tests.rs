use lib::pair::{pair_code_of, pair_of_code, Pair};

#[test]
fn pair_equality_ignores_order() {
    assert!(Pair(1, 2) == Pair(2, 1));
    assert!(Pair(2, 1) == Pair(1, 2));
    assert!(Pair(3, 3) == Pair(3, 3));
    assert!(Pair(4, 9) == Pair(4, 9));
}

#[test]
fn pairs_with_other_elements_differ() {
    assert!(Pair(1, 2) != Pair(1, 3));
    assert!(Pair(1, 2) != Pair(2, 2));
    assert!(Pair(0, 5) != Pair(5, 6));
}

#[test]
fn pair_hash_key_is_larger_first() {
    assert_eq!(Pair(1, 2).hash_key(), (2, 1));
    assert_eq!(Pair(2, 1).hash_key(), (2, 1));
    assert_eq!(Pair(7, 7).hash_key(), (7, 7));
}

#[test]
fn pair_clone_keeps_elements() {
    let p = Pair(8, 3);
    let q = p.clone();
    assert_eq!((q.0, q.1), (8, 3));
}

#[test]
fn pair_codes_round_trip() {
    let k = pair_code_of(97, 98);
    assert_eq!(k, 97u128 * (1u128 << 64) + 98);
    assert_eq!(pair_of_code(k), (97, 98));
    assert_ne!(pair_code_of(98, 97), k);
    assert_eq!(Pair(97, 98).code(), k);
    assert_eq!(pair_of_code(pair_code_of(usize::MAX, 0)), (usize::MAX, 0));
}
