use lib::histogram::Histogram;
use lib::pair::{pair_code_of, pair_of_code};
use lib::scan::{get_histograms_file, get_histograms_user};
use std::collections::HashMap;

/// The samples of a histogram whose buckets each hold one value.
fn samples_of(h: &Histogram) -> Vec<u64> {
    let mut out = Vec::new();
    for b in h.get_values() {
        if b.3 > 0 {
            assert_eq!(b.0, b.1);
            for _ in 0..b.3 {
                out.push(b.0);
            }
        }
    }
    out
}

fn sorted(mut v: Vec<u64>) -> Vec<u64> {
    v.sort();
    v
}

fn letters(s: &str) -> Vec<(usize, usize)> {
    s.chars().enumerate().map(|(i, c)| (i + 1, c as usize)).collect()
}

#[test]
fn histograms_of_an_alternating_trace() {
    let trace = letters("abab");
    let (reuse, switch, inter, joint) = get_histograms_file(&trace);
    let a = 'a' as usize;
    let b = 'b' as usize;
    assert_eq!(reuse.len(), 2);
    assert_eq!(sorted(samples_of(&reuse[&a])), vec![1, 2, 2]);
    assert_eq!(sorted(samples_of(&reuse[&b])), vec![1, 2, 2]);
    let k = pair_code_of(b, a);
    assert_eq!(switch.len(), 1);
    assert!(switch.contains_key(&k));
    assert_eq!(samples_of(&switch[&k]), vec![1, 1, 1]);
    assert_eq!(sorted(samples_of(&inter[&k])), vec![1, 1, 1, 2]);
    assert_eq!(samples_of(&joint[&k]), vec![2, 2, 2, 2]);
}

#[test]
fn repeated_element_makes_no_switch() {
    let trace = letters("aaab");
    let (reuse, switch, _inter, joint) = get_histograms_file(&trace);
    let a = 'a' as usize;
    let b = 'b' as usize;
    assert_eq!(sorted(samples_of(&reuse[&a])), vec![1, 1, 1, 2]);
    assert_eq!(sorted(samples_of(&reuse[&b])), vec![1, 4]);
    let k = pair_code_of(b, a);
    assert_eq!(samples_of(&switch[&k]), vec![1]);
    // inter-switch 3, then 5 - 3 at the end; joint 3 + 1, then 2.
    assert_eq!(sorted(samples_of(&joint[&k])), vec![2, 4]);
}

#[test]
fn reuse_times_sum_to_length_plus_one() {
    let trace = letters("abcacbbdaa");
    let n = trace.len() as u64;
    let (reuse, switch, inter, joint) = get_histograms_file(&trace);
    for h in reuse.values() {
        assert_eq!(samples_of(h).iter().sum::<u64>(), n + 1);
    }
    for (k, h) in switch.iter() {
        assert_eq!(samples_of(&inter[k]).iter().sum::<u64>(), n + 1);
        let s: u64 = samples_of(h).iter().sum();
        assert_eq!(samples_of(&joint[k]).iter().sum::<u64>(), n + 1 + s);
        assert_eq!(samples_of(&joint[k]).len(), samples_of(h).len() + 1);
    }
}

#[test]
fn every_pair_is_filed_once() {
    let trace = letters("abcabcbacdda");
    let (reuse, switch, inter, joint) = get_histograms_file(&trace);
    let elements: Vec<usize> = "abcd".chars().map(|c| c as usize).collect();
    assert_eq!(reuse.len(), elements.len());
    for e in &elements {
        assert!(reuse.contains_key(e));
    }
    for k in switch.keys() {
        let (x, y) = pair_of_code(*k);
        assert_ne!(x, y);
        assert!(!switch.contains_key(&pair_code_of(y, x)));
        assert!(inter.contains_key(k) && joint.contains_key(k));
    }
    assert_eq!(inter.len(), switch.len());
    assert_eq!(joint.len(), switch.len());
}

#[test]
fn user_trace_reports_switches_in_order() {
    let trace: Vec<char> = "abab".chars().collect();
    let (reuse, switch, _inter, _joint, events) = get_histograms_user(&trace);
    assert_eq!(reuse.len(), 2);
    assert_eq!(switch.len(), 1);
    assert_eq!(events, vec![(1, 98, 97, 1), (2, 97, 98, 2), (3, 98, 97, 3)]);
}

#[test]
fn user_trace_reports_all_switches_of_an_access() {
    let trace: Vec<char> = "abcb".chars().collect();
    let (_reuse, switch, _inter, _joint, events) = get_histograms_user(&trace);
    let mut at2: Vec<(usize, usize, usize, usize)> = events.iter().copied().filter(|e| e.0 == 2).collect();
    at2.sort();
    assert_eq!(at2, vec![(2, 99, 97, 1), (2, 99, 98, 2)]);
    // the second access of b switches from c only: a is older than b
    let at3: Vec<(usize, usize, usize, usize)> = events.iter().copied().filter(|e| e.0 == 3).collect();
    assert_eq!(at3, vec![(3, 98, 99, 3)]);
    assert_eq!(switch.len(), 3);
    let mut seen: HashMap<usize, usize> = HashMap::new();
    for e in &events {
        *seen.entry(e.0).or_insert(0) += 1;
    }
    assert_eq!(seen.get(&0), None);
}

#[test]
fn renaming_elements_renames_the_histograms() {
    let trace = letters("abcacbbdaab");
    let renamed: Vec<(usize, usize)> = trace.iter().map(|(t, e)| (*t, 1000 - *e)).collect();
    let (r1, s1, i1, j1) = get_histograms_file(&trace);
    let (r2, s2, i2, j2) = get_histograms_file(&renamed);
    assert_eq!(r1.len(), r2.len());
    for (e, h) in r1.iter() {
        assert_eq!(samples_of(h), samples_of(&r2[&(1000 - *e)]));
    }
    assert_eq!(s1.len(), s2.len());
    for (k, h) in s1.iter() {
        let (a, b) = pair_of_code(*k);
        let k2 = pair_code_of(1000 - a, 1000 - b);
        assert_eq!(samples_of(h), samples_of(&s2[&k2]));
        assert_eq!(samples_of(&i1[k]), samples_of(&i2[&k2]));
        assert_eq!(samples_of(&j1[k]), samples_of(&j2[&k2]));
    }
}

#[test]
fn typed_and_numbered_traces_have_the_same_histograms() {
    let chars: Vec<char> = "abcabdd".chars().collect();
    let trace = letters("abcabdd");
    let (r1, s1, _i1, j1, _events) = get_histograms_user(&chars);
    let (r2, s2, _i2, j2) = get_histograms_file(&trace);
    assert_eq!(r1.len(), r2.len());
    for (e, h) in r1.iter() {
        assert_eq!(samples_of(h), samples_of(&r2[e]));
    }
    assert_eq!(s1.len(), s2.len());
    for (k, h) in s1.iter() {
        assert_eq!(samples_of(h), samples_of(&s2[k]));
        assert_eq!(samples_of(&j1[k]), samples_of(&j2[k]));
    }
}
