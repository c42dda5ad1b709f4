use lib::frequency::{get_joint_frequencies, get_single_frequencies, total_windows};
use lib::histogram::Histogram;
use lib::pair::pair_of_code;
use lib::scan::get_histograms_file;
use std::collections::HashMap;

fn brute_single(trace: &[(usize, usize)], e: usize, w: usize) -> usize {
    (0..=trace.len() - w).filter(|s| trace[*s..*s + w].iter().any(|x| x.1 == e)).count()
}

fn brute_both(trace: &[(usize, usize)], a: usize, b: usize, w: usize) -> usize {
    (0..=trace.len() - w)
        .filter(|s| {
            let win = &trace[*s..*s + w];
            win.iter().any(|x| x.1 == a) && win.iter().any(|x| x.1 == b)
        })
        .count()
}

fn pseudo_random_trace(seed: u64, n: usize, kinds: u64) -> Vec<(usize, usize)> {
    let mut x = seed;
    let mut t = Vec::new();
    for i in 0..n {
        x = x.wrapping_mul(6364136223846793005).wrapping_add(1442695040888963407);
        t.push((i + 1, (100 + (x >> 33) % kinds) as usize));
    }
    t
}

fn check_trace(trace: &[(usize, usize)]) {
    let n = trace.len();
    let (reuse, switch, _inter, joint) = get_histograms_file(&trace.to_vec());
    for w in 1..=n {
        let total = n - w + 1;
        let single = get_single_frequencies(&reuse, w, total).expect("single frequencies");
        assert_eq!(single.len(), reuse.len());
        for (e, f) in single.iter() {
            assert_eq!(*f, brute_single(trace, *e, w), "element {} window {}", e, w);
        }
        let pairs = get_joint_frequencies(&switch, &joint, w, total).expect("joint frequencies");
        assert_eq!(pairs.len(), switch.len());
        for (k, f) in pairs.iter() {
            let (a, b) = pair_of_code(*k);
            assert_eq!(*f, brute_both(trace, a, b, w), "pair {:?} window {}", (a, b), w);
            assert!(*f <= single[&a] && *f <= single[&b]);
            if w == 1 {
                assert_eq!(*f, 0);
            }
        }
        for f in single.values() {
            assert!(1 <= *f && *f <= total);
        }
    }
}

#[test]
fn single_and_joint_frequencies_count_windows() {
    let abab: Vec<(usize, usize)> = "abab".chars().enumerate().map(|(i, c)| (i + 1, c as usize)).collect();
    check_trace(&abab);
    let text: Vec<(usize, usize)> =
        "abcacbbdaabbcdd".chars().enumerate().map(|(i, c)| (i + 1, c as usize)).collect();
    check_trace(&text);
}

#[test]
fn frequencies_count_windows_on_generated_traces() {
    for seed in 0..12u64 {
        let n = 5 + (seed as usize * 7) % 40;
        let kinds = 2 + seed % 5;
        check_trace(&pseudo_random_trace(seed, n, kinds));
    }
}

#[test]
fn frequencies_of_a_small_example() {
    let trace: Vec<(usize, usize)> = vec![(1, 1), (2, 2), (3, 1), (4, 3), (5, 3)];
    let (reuse, switch, _inter, joint) = get_histograms_file(&trace);
    let single = get_single_frequencies(&reuse, 2, 4).unwrap();
    assert_eq!(single[&1], 3);
    assert_eq!(single[&2], 2);
    assert_eq!(single[&3], 2);
    let pairs = get_joint_frequencies(&switch, &joint, 2, 4).unwrap();
    let mut by_pair: HashMap<(usize, usize), usize> = HashMap::new();
    for (k, f) in pairs {
        let (a, b) = pair_of_code(k);
        by_pair.insert((a.min(b), a.max(b)), f);
    }
    assert_eq!(by_pair[&(1, 2)], 2);
    assert_eq!(by_pair[&(1, 3)], 1);
    // 3 arrives after both 1 and 2, so the pair of 2 and 3 is filed too
    assert_eq!(by_pair[&(2, 3)], 0);
}

#[test]
fn single_frequency_fails_when_more_windows_miss_than_exist() {
    let mut h = Histogram::new_tuple(8, 10);
    h.add(9);
    let mut reuse: HashMap<usize, Histogram> = HashMap::new();
    reuse.insert(1, h);
    // a gap of 9 with windows of 2 misses 7 windows
    assert!(get_single_frequencies(&reuse, 2, 6).is_none());
    assert_eq!(get_single_frequencies(&reuse, 2, 7).unwrap()[&1], 0);
    assert_eq!(get_single_frequencies(&reuse, 9, 7).unwrap()[&1], 7);
}

#[test]
fn joint_frequency_fails_on_inconsistent_histograms() {
    let mut s = Histogram::new_tuple(8, 10);
    s.add(3);
    let mut j = Histogram::new_tuple(8, 10);
    j.add(1);
    let mut switch: HashMap<u128, Histogram> = HashMap::new();
    let mut joint: HashMap<u128, Histogram> = HashMap::new();
    switch.insert(5, s);
    joint.insert(5, j);
    // more windows would miss the pair than there are windows
    assert!(get_joint_frequencies(&switch, &joint, 3, 10).is_none());
    // with no pairs switched there is nothing to count
    let empty: HashMap<u128, Histogram> = HashMap::new();
    assert!(get_joint_frequencies(&empty, &joint, 3, 10).unwrap().is_empty());
}

#[test]
fn total_windows_counts_window_positions() {
    assert_eq!(total_windows(10, 3), Some(8));
    assert_eq!(total_windows(10, 10), Some(1));
    assert_eq!(total_windows(10, 11), None);
    assert_eq!(total_windows(0, 0), Some(1));
    assert_eq!(total_windows(usize::MAX, 0), None);
}

#[test]
fn joint_count_runs_over_a_bucket_that_straddles_the_window() {
    let mut s = Histogram::new_tuple(8, 10);
    s.add(1);
    s.add(1);
    let mut j = Histogram::new_tuple(8, 10);
    j.add(2);
    j.add(1024);
    j.add(1027);
    let mut switch: HashMap<u128, Histogram> = HashMap::new();
    let mut joint: HashMap<u128, Histogram> = HashMap::new();
    switch.insert(5, s);
    joint.insert(5, j);
    // running shortfall: 1025 - 2 = 1023, then 1023 + 2 * 1025 - 2051 = 1022
    assert_eq!(get_joint_frequencies(&switch, &joint, 1025, 1026).unwrap()[&5], 1026);
}

#[test]
fn joint_count_of_a_long_trace_with_a_straddling_bucket() {
    let mut trace: Vec<(usize, usize)> = vec![(1, 1)];
    for _ in 0..1023 {
        trace.push((trace.len() + 1, 2));
    }
    for _ in 0..1026 {
        trace.push((trace.len() + 1, 1));
    }
    assert_eq!(trace.len(), 2050);
    let (reuse, switch, _inter, joint) = get_histograms_file(&trace);
    let w = 1025;
    let total = total_windows(trace.len(), w).unwrap();
    let pairs = get_joint_frequencies(&switch, &joint, w, total).unwrap();
    assert_eq!(pairs.len(), 1);
    // the bucket of the joint-switch times 1024 and 1027 is read by its
    // smallest sample, so the count is 1026 (1024 windows hold both)
    assert_eq!(*pairs.values().next().unwrap(), 1026);
    assert_eq!(brute_both(&trace, 1, 2, w), 1024);
    assert!(get_single_frequencies(&reuse, w, total).is_some());
}

#[test]
fn single_frequencies_stay_in_range_for_wide_windows() {
    let trace = pseudo_random_trace(7, 1500, 3);
    let n = trace.len();
    let (reuse, _switch, _inter, _joint) = get_histograms_file(&trace);
    for w in [1, 511, 512, 600, 1000, 1499, 1500] {
        let total = n - w + 1;
        let single = get_single_frequencies(&reuse, w, total).expect("in range");
        for (e, f) in single.iter() {
            assert!(1 <= *f && *f <= total);
            assert!(*f >= brute_single(&trace, *e, w));
        }
    }
}
