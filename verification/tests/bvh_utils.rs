use raytracer::bvh_utils::partition;

fn check_partitioned(values: &[u32], split: usize, pred: impl Fn(&u32) -> bool) {
    for (k, v) in values.iter().enumerate() {
        if k < split {
            assert!(pred(v));
        } else if k > split {
            assert!(!pred(v));
        }
    }
}

#[test]
fn partition_mixed_values() {
    let mut values = vec![5u32, 1, 8, 2, 9, 3, 7];
    let before = values.clone();
    let split = partition(&mut values, |&v| v < 5);
    assert_eq!(split, 3);
    check_partitioned(&values, split, |&v| v < 5);
    let mut sorted = values.clone();
    sorted.sort();
    let mut sorted_before = before.clone();
    sorted_before.sort();
    assert_eq!(sorted, sorted_before);
}

#[test]
fn partition_none_satisfy() {
    let mut values = vec![4u32, 5, 6];
    let split = partition(&mut values, |&v| v < 2);
    assert_eq!(split, 0);
    assert_eq!(values, vec![4, 5, 6]);
}

#[test]
fn partition_all_satisfy_returns_last_position() {
    let mut values = vec![1u32, 2, 3];
    let split = partition(&mut values, |&v| v < 10);
    assert_eq!(split, 2);
    assert_eq!(values, vec![1, 2, 3]);
}

#[test]
fn partition_single_element() {
    let mut values = vec![7u32];
    assert_eq!(partition(&mut values, |&v| v == 7), 0);
    assert_eq!(partition(&mut values, |&v| v != 7), 0);
    assert_eq!(values, vec![7]);
}

#[test]
fn partition_reversed_groups() {
    let mut values = vec![9u32, 8, 1, 2];
    let split = partition(&mut values, |&v| v < 5);
    assert_eq!(split, 2);
    assert_eq!(values, vec![2, 1, 8, 9]);
}

#[test]
fn partition_last_entry_fails() {
    let mut values = vec![1u32, 2, 9];
    let split = partition(&mut values, |&v| v < 5);
    assert_eq!(split, 2);
    assert_eq!(values, vec![1, 2, 9]);
}

use raytracer::bvh_utils::{bin_counts, split_counts};

#[test]
fn bin_counts_counts_each_bin() {
    assert_eq!(bin_counts(&[0, 2, 2, 3, 0, 2], 4), vec![2, 0, 3, 1]);
    assert_eq!(bin_counts(&[], 3), vec![0, 0, 0]);
}

#[test]
fn split_counts_left_and_right() {
    assert_eq!(split_counts(&[2, 0, 3, 1]), vec![(2, 4), (2, 4), (5, 1)]);
    assert_eq!(split_counts(&[7]), Vec::<(u32, u32)>::new());
}

#[test]
fn sah_split_with_both_sides_gives_two_nonempty_children() {
    // bins of the items 0..6, chosen as a binning would
    let bins = [3usize, 0, 1, 3, 2, 0];
    let counts = bin_counts(&bins, 4);
    let splits = split_counts(&counts);
    let s = 2;
    let (left, right) = splits[s - 1];
    assert!(left > 0 && right > 0);
    let mut items: Vec<usize> = (0..6).collect();
    let split = partition(&mut items, |&i| bins[i] < s);
    assert_eq!(split as u32, left);
    assert!(split > 0 && split < items.len());
}

#[test]
fn partition_swaps_misplaced_pair_only() {
    let mut values = vec![1i32, 4, 2, 5, 3];
    let split = partition(&mut values, |x: &i32| *x < 3);
    assert_eq!(split, 2);
    assert_eq!(values, vec![1, 2, 4, 5, 3]);
}

#[test]
fn partition_leaves_partitioned_slice_unchanged() {
    let mut values = vec![1u32, 2, 7, 8, 9];
    assert_eq!(partition(&mut values, |&v| v < 5), 2);
    assert_eq!(values, vec![1, 2, 7, 8, 9]);
    let mut once = vec![6u32, 1, 9, 3, 2, 8];
    let first = partition(&mut once, |&v| v < 5);
    let after_first = once.clone();
    let second = partition(&mut once, |&v| v < 5);
    assert_eq!(first, second);
    assert_eq!(once, after_first);
}

#[test]
fn partition_keeps_entries_already_in_place() {
    let mut values = vec![9u32, 1, 2, 8, 3, 7];
    let before = values.clone();
    let split = partition(&mut values, |&v| v < 5);
    assert_eq!(split, 3);
    for k in 0..values.len() {
        let in_place = if k < split { before[k] < 5 } else { before[k] >= 5 };
        if in_place {
            assert_eq!(values[k], before[k]);
        }
    }
}

#[test]
fn partition_trades_misplaced_entries_front_to_back() {
    let mut values = vec![6u32, 1, 9, 3, 2, 8];
    let split = partition(&mut values, |&v| v < 5);
    assert_eq!(split, 3);
    // 6 (first misplaced from the front) trades with 2 (first from the back),
    // 9 with 3
    assert_eq!(values, vec![2, 1, 3, 9, 6, 8]);
}
