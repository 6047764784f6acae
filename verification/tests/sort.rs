use recommender::sort::{quicksort, quicksort_by};

#[test]
fn sorts_values_and_carries_keys() {
    let mut values: Vec<u64> = vec![5, 3, 3, 1];
    let mut keys: Vec<String> = vec!["d".to_string(), "c".to_string(), "b".to_string(), "a".to_string()];
    quicksort(&mut values, &mut keys);
    assert_eq!(values, vec![1, 3, 3, 5]);
    assert_eq!(keys[0], "a");
    assert_eq!(keys[3], "d");
    let mid: Vec<&str> = vec![keys[1].as_str(), keys[2].as_str()];
    assert!(mid == vec!["b", "c"] || mid == vec!["c", "b"]);
}

#[test]
fn quicksort_by_matches_quicksort() {
    let mut values: Vec<u64> = vec![9, 2, 7, 2, 0];
    let mut keys: Vec<u32> = vec![0, 1, 2, 3, 4];
    quicksort_by(&mut values, &mut keys);
    assert_eq!(values, vec![0, 2, 2, 7, 9]);
    assert_eq!(keys[0], 4);
    assert_eq!(keys[3], 2);
    assert_eq!(keys[4], 0);
    let mid: Vec<u32> = vec![keys[1], keys[2]];
    assert!(mid == vec![1, 3] || mid == vec![3, 1]);
}

#[test]
fn empty_and_single_are_untouched() {
    let mut values: Vec<u64> = vec![];
    let mut keys: Vec<String> = vec![];
    quicksort(&mut values, &mut keys);
    assert!(values.is_empty());

    let mut values = vec![42u64];
    let mut keys = vec!["only".to_string()];
    quicksort(&mut values, &mut keys);
    assert_eq!(values, vec![42]);
    assert_eq!(keys, vec!["only".to_string()]);
}

#[test]
fn all_equal_values_keep_every_pair() {
    let mut values: Vec<u64> = vec![7, 7, 7, 7, 7];
    let mut keys: Vec<String> = vec!["a", "b", "c", "d", "e"].into_iter().map(String::from).collect();
    quicksort(&mut values, &mut keys);
    assert_eq!(values, vec![7, 7, 7, 7, 7]);
    let mut sorted_keys = keys.clone();
    sorted_keys.sort();
    assert_eq!(sorted_keys, vec!["a", "b", "c", "d", "e"]);
}

#[test]
fn reverse_sorted_input() {
    let mut values: Vec<u64> = (0..50u64).rev().collect();
    let mut keys: Vec<u64> = (0..50u64).collect();
    quicksort(&mut values, &mut keys);
    for t in 0..50u64 {
        assert_eq!(values[t as usize], t);
        // pairing: value t started paired with key 49 - t
        assert_eq!(keys[t as usize], 49 - t);
    }
}

#[test]
fn many_duplicates_preserve_pairs() {
    let mut values: Vec<u64> = vec![2, 1, 2, 1, 2, 1, 2, 1];
    let mut keys: Vec<u64> = vec![20, 10, 21, 11, 22, 12, 23, 13];
    quicksort(&mut values, &mut keys);
    assert_eq!(values, vec![1, 1, 1, 1, 2, 2, 2, 2]);
    let mut low: Vec<u64> = keys[0..4].to_vec();
    let mut high: Vec<u64> = keys[4..8].to_vec();
    low.sort();
    high.sort();
    assert_eq!(low, vec![10, 11, 12, 13]);
    assert_eq!(high, vec![20, 21, 22, 23]);
}
