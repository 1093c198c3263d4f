use hybrid_sort::matrix::{generate_random_matrix, matrix_multiply_recursive, naive_matrix_multiply, SquareMatrix};

#[test]
fn test_matrix_addition() {
    let matrix1 = SquareMatrix::new(2, vec![vec![1, 2], vec![3, 4]]);
    let matrix2 = SquareMatrix::new(2, vec![vec![5, 6], vec![7, 8]]);
    let expected = SquareMatrix::new(2, vec![vec![6, 8], vec![10, 12]]);
    assert_eq!(matrix1.add(matrix2), expected);
}

#[test]
fn test_matrix_multiplication() {
    let matrix1 = SquareMatrix::new(2, vec![vec![1, 2], vec![3, 4]]);
    let matrix2 = SquareMatrix::new(2, vec![vec![5, 6], vec![7, 8]]);
    let expected = SquareMatrix::new(2, vec![vec![19, 22], vec![43, 50]]);
    assert_eq!(naive_matrix_multiply(&matrix1, &matrix2), expected);
}

#[test]
fn test_matrix_multiply_recursive() {
    let matrix1 = SquareMatrix::new(2, vec![vec![1, 2], vec![3, 4]]);
    let matrix2 = SquareMatrix::new(2, vec![vec![5, 6], vec![7, 8]]);
    let expected = SquareMatrix::new(2, vec![vec![19, 22], vec![43, 50]]);

    let mut result = SquareMatrix::zero(2);
    matrix_multiply_recursive(&matrix1, &matrix2, &mut result, 2 as usize);
    assert_eq!(result, expected);
}

#[test]
fn test_random_matrix_multiplication() {
    let size = 16;
    let matrix1 = generate_random_matrix(size, -10, 10);
    let matrix2 = generate_random_matrix(size, -10, 10);
    let expected = naive_matrix_multiply(&matrix1, &matrix2);
    let mut recursive_result = SquareMatrix::zero(size);
    matrix_multiply_recursive(&matrix1, &matrix2, &mut recursive_result, size);
    assert_eq!(expected, recursive_result, "Multiplication results do not match!");
}

#[test]
fn random_entries_in_range() {
    let m = generate_random_matrix(8, 3, 5);
    assert_eq!(m.size, 8);
    for row in &m.data {
        assert_eq!(row.len(), 8);
        for &v in row {
            assert!((3..=5).contains(&v));
        }
    }
}

#[test]
fn zero_matrix_entries() {
    let z = SquareMatrix::zero(3);
    assert_eq!(z.data, vec![vec![0; 3]; 3]);
}

#[test]
fn split_into_quadrants() {
    let m = SquareMatrix::new(4, vec![
        vec![1, 2, 3, 4],
        vec![5, 6, 7, 8],
        vec![9, 10, 11, 12],
        vec![13, 14, 15, 16],
    ]);
    let (a11, a12, a21, a22) = m.split();
    assert_eq!(a11.data, vec![vec![1, 2], vec![5, 6]]);
    assert_eq!(a12.data, vec![vec![3, 4], vec![7, 8]]);
    assert_eq!(a21.data, vec![vec![9, 10], vec![13, 14]]);
    assert_eq!(a22.data, vec![vec![11, 12], vec![15, 16]]);
}

#[test]
fn merge_adds_quadrants() {
    let mut m = SquareMatrix::new(2, vec![vec![1, 1], vec![1, 1]]);
    let c11 = SquareMatrix::new(1, vec![vec![10]]);
    let c12 = SquareMatrix::new(1, vec![vec![20]]);
    let c21 = SquareMatrix::new(1, vec![vec![30]]);
    let c22 = SquareMatrix::new(1, vec![vec![40]]);
    m.merge(&c11, &c12, &c21, &c22);
    assert_eq!(m.data, vec![vec![11, 21], vec![31, 41]]);
}

#[test]
fn recursive_four_by_four_matches_naive() {
    let a = SquareMatrix::new(4, vec![
        vec![1, -2, 3, 0],
        vec![4, 5, -6, 7],
        vec![0, 8, 9, -1],
        vec![2, 3, 4, 5],
    ]);
    let b = SquareMatrix::new(4, vec![
        vec![-1, 0, 2, 3],
        vec![5, 1, 0, -2],
        vec![3, 3, 3, 3],
        vec![0, -4, 1, 2],
    ]);
    let expected = naive_matrix_multiply(&a, &b);
    assert_eq!(expected.data[0], vec![-2, 7, 11, 16]);
    let mut r = SquareMatrix::zero(4);
    matrix_multiply_recursive(&a, &b, &mut r, 4);
    assert_eq!(r, expected);
}
