use hybrid_sort::inversion::{count_inversion_range, count_inversion_with_merge_sort, naive};

#[test]
fn test_naive_1() {
    let a = vec![1, 2, 3, 4, 5];
    assert_eq!(naive(&a), 0);
}

#[test]
fn test_naive_2() {
    let a = vec![2, 3, 8, 6, 1];
    assert_eq!(naive(&a), 5);
}

#[test]
fn test_count_inversion_with_merge_sort_1() {
    let mut a = vec![1, 2, 3, 4, 5];
    assert_eq!(count_inversion_with_merge_sort(&mut a), 0);
}

#[test]
fn test_count_inversion_with_mer_2() {
    let mut a = vec![2, 3, 8, 6, 1];
    assert_eq!(count_inversion_with_merge_sort(&mut a), 5);
}

#[test]
fn merge_sort_count_also_sorts() {
    let mut a = vec![4, 1, 3, 1, 2];
    assert_eq!(count_inversion_with_merge_sort(&mut a), 6);
    assert_eq!(a, vec![1, 1, 2, 3, 4]);
}

#[test]
fn equal_values_are_no_inversion() {
    assert_eq!(naive(&vec![7, 7, 7]), 0);
    let mut a = vec![7, 7, 7];
    assert_eq!(count_inversion_with_merge_sort(&mut a), 0);
}

#[test]
fn reversed_has_all_pairs() {
    let a: Vec<i32> = (0..50).rev().collect();
    assert_eq!(naive(&a), 1225);
    let mut b = a.clone();
    assert_eq!(count_inversion_with_merge_sort(&mut b), 1225);
}

#[test]
fn both_counts_agree() {
    let a = vec![9, -4, 0, 12, 3, 3, -8, 5, 1, 0, 7];
    let mut b = a.clone();
    assert_eq!(count_inversion_with_merge_sort(&mut b), naive(&a));
}

#[test]
fn range_count_leaves_rest() {
    let mut a = vec![100, 3, 2, 1, -100];
    assert_eq!(count_inversion_range(&mut a, 1, 4), 3);
    assert_eq!(a, vec![100, 1, 2, 3, -100]);
}

#[test]
fn empty_has_no_inversion() {
    assert_eq!(naive(&vec![]), 0);
    let mut a: Vec<i32> = vec![];
    assert_eq!(count_inversion_with_merge_sort(&mut a), 0);
}
