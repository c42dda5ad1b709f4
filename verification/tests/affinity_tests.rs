use lib::affinity::{cross, get_affinities, Node};
use lib::pair::{pair_code_of, Pair};
use std::cmp::Ordering;
use std::collections::HashMap;

fn node(a: usize, b: usize, joint: usize, single: usize) -> Node {
    Node { pair: Pair(a, b), joint, single }
}

#[test]
fn affinities_are_listed_highest_first() {
    let mut single: HashMap<usize, usize> = HashMap::new();
    single.insert(1, 4);
    single.insert(2, 2);
    single.insert(3, 1);
    let mut joint: HashMap<u128, usize> = HashMap::new();
    joint.insert(pair_code_of(1, 2), 2);
    joint.insert(pair_code_of(3, 2), 1);
    let v = get_affinities(single, joint).unwrap();
    let pairs: Vec<(usize, usize, usize, usize)> = v.iter().map(|n| (n.pair.0, n.pair.1, n.joint, n.single)).collect();
    // 2/2 and 1/1 tie at 1, then 2/4 and 1/2 tie at 1/2; ties go by pair
    assert_eq!(pairs, vec![(2, 1, 2, 2), (3, 2, 1, 1), (1, 2, 2, 4), (2, 3, 1, 2)]);
}

#[test]
fn a_zero_single_frequency_comes_first() {
    let mut single: HashMap<usize, usize> = HashMap::new();
    single.insert(1, 0);
    single.insert(2, 5);
    let mut joint: HashMap<u128, usize> = HashMap::new();
    joint.insert(pair_code_of(2, 1), 3);
    let v = get_affinities(single, joint).unwrap();
    assert_eq!(v.len(), 2);
    assert_eq!((v[0].pair.0, v[0].pair.1), (1, 2));
    assert_eq!((v[1].pair.0, v[1].pair.1), (2, 1));
}

#[test]
fn affinities_need_every_single_frequency() {
    let mut single: HashMap<usize, usize> = HashMap::new();
    single.insert(1, 4);
    let mut joint: HashMap<u128, usize> = HashMap::new();
    joint.insert(pair_code_of(1, 2), 1);
    assert!(get_affinities(single, joint).is_none());
}

#[test]
fn affinity_of_zero_over_zero_is_listed_last() {
    let mut single: HashMap<usize, usize> = HashMap::new();
    single.insert(1, 4);
    single.insert(2, 0);
    single.insert(3, 2);
    let mut joint: HashMap<u128, usize> = HashMap::new();
    joint.insert(pair_code_of(1, 2), 0);
    joint.insert(pair_code_of(1, 3), 1);
    let v = get_affinities(single, joint).unwrap();
    let pairs: Vec<(usize, usize)> = v.iter().map(|n| (n.pair.0, n.pair.1)).collect();
    // 1/2, 1/4, 0/4, then 0/0
    assert_eq!(pairs, vec![(3, 1), (1, 3), (1, 2), (2, 1)]);
}

#[test]
fn no_pairs_no_affinities() {
    let single: HashMap<usize, usize> = HashMap::new();
    let joint: HashMap<u128, usize> = HashMap::new();
    assert_eq!(get_affinities(single, joint).unwrap().len(), 0);
}

#[test]
fn nodes_compare_by_affinity() {
    let half = node(1, 2, 1, 2);
    let also_half = node(5, 6, 2, 4);
    let one = node(3, 4, 3, 3);
    let undefined = node(7, 8, 0, 0);
    assert!(half == also_half);
    assert_eq!(half.partial_cmp(&also_half), Some(Ordering::Equal));
    assert_eq!(one.partial_cmp(&half), Some(Ordering::Greater));
    assert!(half < one);
    assert_eq!(half.partial_cmp(&undefined), None);
    assert!(undefined != undefined);
    assert!(node(1, 1, 1, 0) > one);
}

#[test]
fn cross_multiplies_exactly() {
    assert_eq!(cross(usize::MAX, usize::MAX), (usize::MAX as u128) * (usize::MAX as u128));
    assert_eq!(cross(6, 7), 42);
}
