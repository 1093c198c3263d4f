use hybrid_sort::pair_sum::solve;

#[test]
fn test_example_case() {
    let x = 10;
    let a = vec![1, 2, 3, 7];
    assert_eq!(solve(x, &a), true);
}

#[test]
fn test_no_pair() {
    let x = 6;
    let a = vec![1, 2, 3];
    assert_eq!(solve(x, &a), false);
}

#[test]
fn test_empty_array() {
    let x = 5;
    let a = vec![];
    assert_eq!(solve(x, &a), false);
}

#[test]
fn test_negative_values() {
    let x = -2;
    let a = vec![1, -3, 4, -1];
    assert_eq!(solve(x, &a), true);
}

#[test]
fn test_duplicate_values() {
    let x = 4;
    let a = vec![2, 2, 2];
    assert_eq!(solve(x, &a), true);
}

#[test]
fn single_element_is_no_pair() {
    assert_eq!(solve(4, &vec![2]), false);
}
