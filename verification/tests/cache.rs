use consistent_sampling::cache::SampleCache;

#[test]
fn empty_cache_probe_is_absent() {
    let cache = SampleCache::new();
    assert!(cache.get(1, 3).is_none());
}

#[test]
fn get_or_compute_stores_on_miss() {
    let mut cache = SampleCache::new();
    let stored = cache.get_or_compute(1, 3, vec![7, 8, 9]);
    assert_eq!(stored, vec![7, 8, 9]);
    assert_eq!(cache.get(1, 3), Some(&vec![7, 8, 9]));
}

#[test]
fn get_or_compute_keeps_the_first_sequence() {
    let mut cache = SampleCache::new();
    let first = cache.get_or_compute(1, 2, vec![5, 6]);
    assert_eq!(first, vec![5, 6]);
    // the later sequence is discarded: the entry is never mutated
    let second = cache.get_or_compute(1, 2, vec![50, 60]);
    assert_eq!(second, vec![5, 6]);
    assert_eq!(cache.get(1, 2), Some(&vec![5, 6]));
}

#[test]
fn keys_differ_by_identity_and_count() {
    let mut cache = SampleCache::new();
    cache.get_or_compute(1, 2, vec![1, 2]);
    cache.get_or_compute(1, 3, vec![1, 2, 3]);
    cache.get_or_compute(2, 2, vec![9, 9]);
    assert_eq!(cache.get(1, 2), Some(&vec![1, 2]));
    assert_eq!(cache.get(1, 3), Some(&vec![1, 2, 3]));
    assert_eq!(cache.get(2, 2), Some(&vec![9, 9]));
    assert!(cache.get(2, 3).is_none());
}

#[test]
fn zero_length_keys_are_handled() {
    let mut cache = SampleCache::new();
    let stored = cache.get_or_compute(4, 0, vec![]);
    assert!(stored.is_empty());
    assert_eq!(cache.get(4, 0), Some(&vec![]));
}
