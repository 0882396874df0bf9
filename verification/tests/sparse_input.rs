use fastlap::sparse::sparse_to_dense;

#[test]
fn dense_from_csr() {
    // [[1, _, 2], [_, _, 3]]
    let dense = sparse_to_dense(2, 3, vec![0, 2, 3], vec![0, 2, 2], &vec![1.0, 2.0, 3.0], f64::INFINITY)
        .unwrap();
    assert_eq!(
        dense,
        vec![vec![1.0, f64::INFINITY, 2.0], vec![f64::INFINITY, f64::INFINITY, 3.0]]
    );
}

#[test]
fn offsets_need_not_start_at_zero() {
    let dense = sparse_to_dense(1, 2, vec![5, 6], vec![1], &vec![4.0], 0.0).unwrap();
    assert_eq!(dense, vec![vec![0.0, 4.0]]);
}

#[test]
fn empty_shape() {
    let dense = sparse_to_dense(0, 4, vec![0], vec![], &Vec::<f64>::new(), 0.0).unwrap();
    assert!(dense.is_empty());
}

#[test]
fn refuses_wrong_indptr_length() {
    assert!(sparse_to_dense(2, 2, vec![0, 1], vec![0], &vec![1.0], 0.0).is_none());
}

#[test]
fn refuses_unsorted_indices() {
    assert!(sparse_to_dense(1, 3, vec![0, 2], vec![2, 0], &vec![1.0, 2.0], 0.0).is_none());
}

#[test]
fn refuses_repeated_indices() {
    assert!(sparse_to_dense(1, 3, vec![0, 2], vec![1, 1], &vec![1.0, 2.0], 0.0).is_none());
}

#[test]
fn refuses_column_out_of_range() {
    assert!(sparse_to_dense(1, 2, vec![0, 1], vec![2], &vec![1.0], 0.0).is_none());
}

#[test]
fn refuses_data_of_wrong_length() {
    assert!(sparse_to_dense(1, 2, vec![0, 1], vec![1], &vec![1.0, 2.0], 0.0).is_none());
}

#[test]
fn refuses_decreasing_indptr() {
    assert!(sparse_to_dense(2, 2, vec![0, 2, 1], vec![0, 1], &vec![1.0, 2.0], 0.0).is_none());
}
