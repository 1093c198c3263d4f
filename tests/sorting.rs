use hybrid_sort::hybrid::hybrid_bottom_up_merge_sort;
use hybrid_sort::insertion::{binary_insertion_sort, binary_insertion_sort_range};
use hybrid_sort::merge_step::stable_merge_with_buf;
use hybrid_sort::sorted::is_sorted;
use hybrid_sort::top_down::{merge, merge_sort};
use rand::Rng;

fn sorted_copy(v: &[i32]) -> Vec<i32> {
    let mut w = v.to_vec();
    w.sort();
    w
}

#[test]
fn test_merge_sort_reversed() {
    let mut arr = vec![5, 4, 3, 2, 1];
    merge_sort(&mut arr);
    assert_eq!(arr, vec![1, 2, 3, 4, 5]);
}

#[test]
fn merge_of_two_runs() {
    let mut arr = vec![1, 4, 7, 2, 3, 9];
    merge(&mut arr, 3);
    assert_eq!(arr, vec![1, 2, 3, 4, 7, 9]);
}

#[test]
fn hybrid_empty() {
    let mut arr: Vec<i32> = vec![];
    hybrid_bottom_up_merge_sort(&mut arr, 3);
    assert_eq!(arr, Vec::<i32>::new());
}

#[test]
fn hybrid_single() {
    let mut arr = vec![5];
    hybrid_bottom_up_merge_sort(&mut arr, 16);
    assert_eq!(arr, vec![5]);
}

#[test]
fn hybrid_pi_digits_threshold_four() {
    let mut arr = vec![3, 1, 4, 1, 5, 9, 2, 6, 5, 3, 5];
    hybrid_bottom_up_merge_sort(&mut arr, 4);
    assert_eq!(arr, vec![1, 1, 2, 3, 3, 4, 5, 5, 5, 6, 9]);
}

#[test]
fn hybrid_reversed_threshold_two() {
    let mut arr = vec![5, 4, 3, 2, 1];
    hybrid_bottom_up_merge_sort(&mut arr, 2);
    assert_eq!(arr, vec![1, 2, 3, 4, 5]);
}

#[test]
fn hybrid_random_thousand() {
    let mut rng = rand::thread_rng();
    let input: Vec<i32> = (0..1000).map(|_| rng.gen_range(0..1000)).collect();
    let mut arr = input.clone();
    hybrid_bottom_up_merge_sort(&mut arr, 16);
    assert_eq!(arr, sorted_copy(&input));
    assert!(is_sorted(&arr));
}

#[test]
fn hybrid_threshold_independence() {
    let input = vec![8, -3, 8, 0, 42, -3, 7, 7, 1, 0, 15, -20, 8];
    let expected = sorted_copy(&input);
    for threshold in 1..=20 {
        let mut arr = input.clone();
        hybrid_bottom_up_merge_sort(&mut arr, threshold);
        assert_eq!(arr, expected, "threshold {}", threshold);
    }
}

#[test]
fn hybrid_sorted_input_unchanged() {
    let input = vec![-5, -5, 0, 1, 1, 2, 10, 10, 11];
    let mut arr = input.clone();
    hybrid_bottom_up_merge_sort(&mut arr, 2);
    assert_eq!(arr, input);
}

#[test]
fn hybrid_keeps_multiset() {
    let input = vec![4, 4, 4, 1, 1, 9, 0, 4];
    let mut arr = input.clone();
    hybrid_bottom_up_merge_sort(&mut arr, 3);
    let sum_in: i64 = input.iter().map(|&x| x as i64).sum();
    let sum_out: i64 = arr.iter().map(|&x| x as i64).sum();
    let sq_in: i64 = input.iter().map(|&x| (x as i64) * (x as i64)).sum();
    let sq_out: i64 = arr.iter().map(|&x| (x as i64) * (x as i64)).sum();
    assert_eq!(sum_in, sum_out);
    assert_eq!(sq_in, sq_out);
    assert_eq!(arr, vec![0, 1, 1, 4, 4, 4, 4, 9]);
}

#[test]
fn hybrid_extreme_values() {
    let mut arr = vec![i32::MAX, 0, i32::MIN, -1, i32::MAX, i32::MIN];
    hybrid_bottom_up_merge_sort(&mut arr, 1);
    assert_eq!(arr, vec![i32::MIN, i32::MIN, -1, 0, i32::MAX, i32::MAX]);
}

#[test]
fn binary_insertion_sorts() {
    let mut arr = vec![3, 1, 4, 1, 5, 9, 2, 6, 5, 3, 5];
    binary_insertion_sort(&mut arr);
    assert_eq!(arr, vec![1, 1, 2, 3, 3, 4, 5, 5, 5, 6, 9]);
}

#[test]
fn binary_insertion_range_leaves_rest() {
    let mut arr = vec![9, 3, 2, 1, 0];
    binary_insertion_sort_range(&mut arr, 1, 4);
    assert_eq!(arr, vec![9, 1, 2, 3, 0]);
}

#[test]
fn stable_merge_uses_buffer_range() {
    let mut arr = vec![100, 2, 5, 8, 1, 5, 9, -7];
    let mut buf = vec![77; 8];
    stable_merge_with_buf(&mut arr, 1, 4, 7, &mut buf);
    assert_eq!(arr, vec![100, 1, 2, 5, 5, 8, 9, -7]);
    assert_eq!(buf[0], 77);
    assert_eq!(buf[7], 77);
}

#[test]
fn stable_merge_empty_side() {
    let mut arr = vec![1, 2, 3];
    let mut buf = vec![0; 3];
    stable_merge_with_buf(&mut arr, 0, 0, 3, &mut buf);
    assert_eq!(arr, vec![1, 2, 3]);
    stable_merge_with_buf(&mut arr, 0, 3, 3, &mut buf);
    assert_eq!(arr, vec![1, 2, 3]);
}

#[test]
fn is_sorted_detects_order() {
    assert!(is_sorted(&vec![]));
    assert!(is_sorted(&vec![1, 1, 2]));
    assert!(!is_sorted(&vec![2, 1]));
}

