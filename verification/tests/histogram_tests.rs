use lib::histogram::Histogram;

#[test]
fn new_histogram_has_empty_buckets_up_to_limit() {
    let h = Histogram::new_tuple(8, 100);
    let v = h.get_values();
    assert_eq!(v.len(), 101);
    assert!(v.iter().all(|b| *b == (0, 0, 0, 0)));
}

#[test]
fn small_samples_get_a_bucket_each() {
    let mut h = Histogram::new_tuple(8, 10);
    h.add(5);
    h.add(5);
    h.add(7);
    let v = h.get_values();
    assert_eq!(v[5], (5, 5, 10, 2));
    assert_eq!(v[7], (7, 7, 7, 1));
    assert_eq!(v[6], (0, 0, 0, 0));
}

#[test]
fn large_samples_share_buckets() {
    let mut h = Histogram::new_tuple(8, 10);
    h.add(600);
    h.add(601);
    h.add(602);
    let v = h.get_values();
    // 600 and 601 halve to 300 (bucket 256 + 300), 602 to 301.
    assert_eq!(v.len(), 558);
    assert_eq!(v[556], (600, 601, 1201, 2));
    assert_eq!(v[557], (602, 602, 602, 1));
}

#[test]
fn bucket_records_add_up_to_the_samples() {
    let mut h = Histogram::new_tuple(8, 50);
    let samples: Vec<u64> = vec![1, 3, 3, 511, 512, 513, 1000, 4096, 7, 0];
    for s in &samples {
        h.add(*s);
    }
    let v = h.get_values();
    let count: u64 = v.iter().map(|b| b.3).sum();
    let sum: u64 = v.iter().map(|b| b.2).sum();
    assert_eq!(count, samples.len() as u64);
    assert_eq!(sum, samples.iter().sum::<u64>());
    for b in &v {
        if b.3 > 0 {
            assert!(b.0 <= b.1);
            assert!(b.0 * b.3 <= b.2 && b.2 <= b.1 * b.3);
        }
    }
}

#[test]
fn a_smaller_base_groups_sooner() {
    let mut h = Histogram::new_tuple(1, 0);
    // base 2: values below 4 each get a bucket; 4 and 5 share bucket 2 + 2.
    h.add(4);
    h.add(5);
    let v = h.get_values();
    assert_eq!(v[4], (4, 5, 9, 2));
}
