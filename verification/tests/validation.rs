use fastlap::matrix::{validate_matrix, EntryKind, MatrixError};

use EntryKind::{Finite, Infinite, NaN};

#[test]
fn accepts_finite_rectangular_matrix() {
    let kinds = vec![vec![Finite, Finite], vec![Finite, Finite]];
    assert_eq!(validate_matrix(&kinds), Ok(()));
}

#[test]
fn refuses_empty_matrix() {
    let kinds: Vec<Vec<EntryKind>> = vec![];
    let err = validate_matrix(&kinds).unwrap_err();
    assert_eq!(err, MatrixError::Empty);
    assert_eq!(err.message(), "Matrix must not be empty");
}

#[test]
fn refuses_empty_rows() {
    let kinds = vec![vec![], vec![Finite]];
    let err = validate_matrix(&kinds).unwrap_err();
    assert_eq!(err, MatrixError::EmptyRows);
    assert_eq!(err.message(), "Matrix rows must not be empty");
}

#[test]
fn refuses_ragged_matrix() {
    let kinds = vec![vec![Finite, Finite], vec![Finite, Finite], vec![Finite, Finite, Finite]];
    let err = validate_matrix(&kinds).unwrap_err();
    assert_eq!(err, MatrixError::NotRectangular { expected: 2, row: 2, found: 3 });
    assert_eq!(err.message(), "Matrix must be rectangular: row 0 has 2 columns but row 2 has 3");
}

#[test]
fn refuses_nan() {
    let kinds = vec![vec![Finite, Finite], vec![Finite, NaN]];
    let err = validate_matrix(&kinds).unwrap_err();
    assert_eq!(err, MatrixError::NaN { row: 1, col: 1 });
    assert_eq!(err.message(), "Matrix contains NaN at position [1, 1]");
}

#[test]
fn refuses_infinite() {
    let kinds = vec![vec![Finite, Infinite, NaN]];
    let err = validate_matrix(&kinds).unwrap_err();
    assert_eq!(err, MatrixError::Infinite { row: 0, col: 1 });
    assert_eq!(err.message(), "Matrix contains infinite value at position [0, 1]");
}

#[test]
fn entry_problems_come_before_a_later_short_row() {
    let kinds = vec![vec![Finite, NaN], vec![Finite]];
    assert_eq!(validate_matrix(&kinds), Err(MatrixError::NaN { row: 0, col: 1 }));
}

#[test]
fn short_row_comes_before_its_own_entries() {
    let kinds = vec![vec![Finite, Finite], vec![NaN]];
    assert_eq!(
        validate_matrix(&kinds),
        Err(MatrixError::NotRectangular { expected: 2, row: 1, found: 1 })
    );
}

#[test]
fn message_with_large_numbers() {
    let err = MatrixError::NotRectangular { expected: 1024, row: 10, found: 1000000 };
    assert_eq!(err.message(), "Matrix must be rectangular: row 0 has 1024 columns but row 10 has 1000000");
}
