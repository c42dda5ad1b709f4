use lib::pair::{pair_code_of, pair_of_code};
use lib::scan::get_histograms_file;
use lib::words::{get_affinities_words, get_histograms_words, get_joint_frequencies_words, get_single_frequencies_words};
use std::collections::HashMap;

fn word_trace(words: &[&str]) -> Vec<(usize, String)> {
    words.iter().enumerate().map(|(i, w)| (i + 1, w.to_string())).collect()
}

#[test]
fn words_are_numbered_by_first_appearance() {
    let trace = word_trace(&["the", "cat", "the", "hat"]);
    let (dict, reuse, switch, inter, joint) = get_histograms_words(&trace);
    assert_eq!(dict, vec!["the".to_string(), "cat".to_string(), "hat".to_string()]);
    assert_eq!(reuse.len(), 3);
    assert!(reuse.contains_key(&0) && reuse.contains_key(&1) && reuse.contains_key(&2));
    // "cat" (1) switches from "the" (0); "the" from "cat"; "hat" from both
    assert!(switch.contains_key(&pair_code_of(1, 0)));
    assert!(switch.contains_key(&pair_code_of(2, 0)));
    assert!(switch.contains_key(&pair_code_of(2, 1)));
    assert_eq!(switch.len(), 3);
    assert_eq!(inter.len(), 3);
    assert_eq!(joint.len(), 3);
}

#[test]
fn word_frequencies_and_affinities() {
    let trace = word_trace(&["the", "cat", "the", "cat", "sat"]);
    let n = trace.len();
    let (dict, reuse, switch, _inter, joint) = get_histograms_words(&trace);
    let w = 2;
    let total = n - w + 1;
    let single = get_single_frequencies_words(&reuse, w, total).unwrap();
    assert_eq!(single[&0], 3);
    assert_eq!(single[&1], 4);
    assert_eq!(single[&2], 1);
    let pairs = get_joint_frequencies_words(&switch, &joint, w, total).unwrap();
    assert_eq!(pairs[&pair_code_of(1, 0)], 3);
    assert_eq!(pairs[&pair_code_of(2, 1)], 1);
    assert_eq!(pairs[&pair_code_of(2, 0)], 0);
    let nodes = get_affinities_words(&dict, single, pairs).unwrap();
    let labelled: Vec<(&str, &str, usize, usize)> =
        nodes.iter().map(|x| (x.first.as_str(), x.second.as_str(), x.node.joint, x.node.single)).collect();
    assert_eq!(
        labelled,
        vec![
            ("the", "cat", 3, 3),
            ("sat", "cat", 1, 1),
            ("cat", "the", 3, 4),
            ("cat", "sat", 1, 4),
            ("the", "sat", 0, 3),
            ("sat", "the", 0, 1),
        ]
    );
}

#[test]
fn affinities_of_words_outside_the_dictionary_are_refused() {
    let dict = vec!["one".to_string()];
    let mut single: HashMap<usize, usize> = HashMap::new();
    single.insert(0, 1);
    single.insert(1, 1);
    let mut joint: HashMap<u128, usize> = HashMap::new();
    joint.insert(pair_code_of(1, 0), 1);
    assert!(get_affinities_words(&dict, single, joint).is_none());
}

#[test]
fn word_nodes_compare_by_affinity() {
    let trace = word_trace(&["a", "b", "a", "b", "c"]);
    let n = trace.len();
    let (dict, reuse, switch, _inter, joint) = get_histograms_words(&trace);
    let single = get_single_frequencies_words(&reuse, 2, n - 1).unwrap();
    let pairs = get_joint_frequencies_words(&switch, &joint, 2, n - 1).unwrap();
    let nodes = get_affinities_words(&dict, single, pairs).unwrap();
    for i in 0..nodes.len() {
        for j in i + 1..nodes.len() {
            assert!(!(nodes[i] < nodes[j]));
        }
    }
    assert!(nodes[0] == nodes[1]);
    assert!(nodes[0] > nodes[nodes.len() - 1]);
}

#[test]
fn numbering_words_differently_renames_the_histograms() {
    let trace = word_trace(&["to", "be", "or", "not", "to", "be"]);
    let (dict, reuse, switch, _inter, joint) = get_histograms_words(&trace);
    // number the words by their alphabetical rank instead
    let mut sorted = dict.clone();
    sorted.sort();
    let rank = |w: &String| sorted.iter().position(|x| x == w).unwrap();
    let other: Vec<(usize, usize)> = trace.iter().map(|(t, w)| (*t, rank(w))).collect();
    let (reuse2, switch2, _inter2, joint2) = get_histograms_file(&other);
    assert_eq!(reuse.len(), reuse2.len());
    for (i, h) in reuse.iter() {
        assert_eq!(h.get_values(), reuse2[&rank(&dict[*i])].get_values());
    }
    assert_eq!(switch.len(), switch2.len());
    for (k, h) in switch.iter() {
        let (a, b) = pair_of_code(*k);
        let k2 = pair_code_of(rank(&dict[a]), rank(&dict[b]));
        assert_eq!(h.get_values(), switch2[&k2].get_values());
        assert_eq!(joint[k].get_values(), joint2[&k2].get_values());
    }
}
