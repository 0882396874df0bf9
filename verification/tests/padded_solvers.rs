use fastlap::lap::auction;
use fastlap::utils::{fits_padding_matrix, pad_to_square, solve_padded, trim_solution};

fn plus(a: f64, b: f64) -> f64 {
    a + b
}

fn minus(a: f64, b: f64) -> f64 {
    a - b
}

fn less(a: f64, b: f64) -> bool {
    a < b
}

fn max_plus_one(m: &[Vec<f64>]) -> f64 {
    m.iter().flatten().cloned().fold(f64::NEG_INFINITY, f64::max) + 1.0
}

fn padded(m: &[Vec<f64>]) -> (f64, Vec<Option<usize>>, Vec<Option<usize>>) {
    solve_padded(m, max_plus_one(m), 0.0, &plus, &minus, &less)
}

fn run_auction(m: &[Vec<f64>]) -> (f64, Vec<Option<usize>>, Vec<Option<usize>>) {
    let max_cost = m.iter().flatten().cloned().fold(f64::NEG_INFINITY, f64::max);
    let epsilon = (max_cost.abs() * 1e-9).max(1e-12);
    auction::solve(m, max_cost + 1.0, epsilon, 0.0, &plus, &minus, &less)
}

#[test]
fn pad_square_matrix_is_copied() {
    let m = vec![vec![1.0, 2.0], vec![3.0, 4.0]];
    assert_eq!(pad_to_square(&m, 9.0), m);
}

#[test]
fn pad_wide_matrix_adds_rows() {
    let m = vec![vec![1.0, 2.0, 3.0], vec![4.0, 5.0, 6.0]];
    assert_eq!(
        pad_to_square(&m, 7.0),
        vec![vec![1.0, 2.0, 3.0], vec![4.0, 5.0, 6.0], vec![7.0, 7.0, 7.0]]
    );
}

#[test]
fn pad_tall_matrix_adds_columns() {
    let m = vec![vec![1.0], vec![2.0], vec![3.0]];
    assert_eq!(
        pad_to_square(&m, 0.5),
        vec![vec![1.0, 0.5, 0.5], vec![2.0, 0.5, 0.5], vec![3.0, 0.5, 0.5]]
    );
}

#[test]
fn pad_empty_matrix() {
    let m: Vec<Vec<f64>> = vec![];
    assert!(pad_to_square(&m, 1.0).is_empty());
}

#[test]
fn trim_drops_padded_partners() {
    let m = vec![vec![1.0, 2.0, 3.0], vec![4.0, 5.0, 6.0]];
    let (total, rows, cols) =
        trim_solution(&m, vec![Some(2), Some(0), Some(1)], vec![Some(1), Some(2), Some(0)], 0.0, &plus);
    assert_eq!(total, 7.0);
    assert_eq!(rows, vec![Some(2), Some(0)]);
    assert_eq!(cols, vec![Some(1), None, Some(0)]);
}

#[test]
fn padding_shape_check() {
    assert!(fits_padding_matrix(&[vec![1, 2], vec![3, 4]]));
    assert!(!fits_padding_matrix(&[vec![1, 2], vec![3]]));
    // A square matrix may have longer rows.
    assert!(fits_padding_matrix(&[vec![1, 2], vec![3, 4, 9]]));
    // A tall matrix may have rows up to the padded side.
    assert!(fits_padding_matrix(&[vec![1], vec![2, 7], vec![3]]));
    assert!(!fits_padding_matrix(&[vec![1], vec![2, 7, 8, 9], vec![3]]));
    // A wide matrix is padded to its first row's length.
    assert!(!fits_padding_matrix(&[vec![1, 2, 3], vec![4, 5, 6, 7]]));
    let empty: Vec<Vec<u8>> = vec![];
    assert!(fits_padding_matrix(&empty));
}

#[test]
fn padded_tall_matrix() {
    let m = vec![vec![1.0, 2.0], vec![3.0, 4.0], vec![5.0, 6.0]];
    let (total, rows, cols) = padded(&m);
    assert_eq!(total, 5.0);
    assert_eq!(rows, vec![Some(0), Some(1), None]);
    assert_eq!(cols, vec![Some(0), Some(1)]);
}

#[test]
fn padded_wide_matrix() {
    let m = vec![vec![1.0, 2.0, 3.0], vec![4.0, 5.0, 6.0]];
    let (total, rows, cols) = padded(&m);
    assert_eq!(total, 6.0);
    assert_eq!(rows, vec![Some(0), Some(1)]);
    assert_eq!(cols, vec![Some(0), Some(1), None]);
}

#[test]
fn padded_wide_picks_cheap_columns() {
    let m = vec![vec![5.0, 1.0, 9.0, 9.0], vec![9.0, 9.0, 1.0, 5.0]];
    let (total, rows, cols) = padded(&m);
    assert_eq!(total, 2.0);
    assert_eq!(rows, vec![Some(1), Some(2)]);
    assert_eq!(cols, vec![None, Some(0), Some(1), None]);
}

#[test]
fn padded_single_column() {
    let m = vec![vec![2.0], vec![1.0], vec![3.0]];
    let (total, rows, cols) = padded(&m);
    assert_eq!(total, 1.0);
    assert_eq!(rows, vec![None, Some(0), None]);
    assert_eq!(cols, vec![Some(1)]);
}

#[test]
fn padded_single_row() {
    let m = vec![vec![7.0, 3.0]];
    let (total, rows, cols) = padded(&m);
    assert_eq!(total, 3.0);
    assert_eq!(rows, vec![Some(1)]);
    assert_eq!(cols, vec![None, Some(0)]);
}

#[test]
fn padded_empty_matrix() {
    let m: Vec<Vec<f64>> = vec![];
    let (total, rows, cols) = padded(&m);
    assert_eq!(total, 0.0);
    assert!(rows.is_empty() && cols.is_empty());
}

#[test]
fn padded_rows_without_entries() {
    let m: Vec<Vec<f64>> = vec![vec![], vec![]];
    let (total, rows, cols) = solve_padded(&m, 1.0, 0.0, &plus, &minus, &less);
    assert_eq!(total, 0.0);
    assert_eq!(rows, vec![None, None]);
    assert!(cols.is_empty());
}

#[test]
fn auction_unique_optimum() {
    let m = vec![vec![4.0, 1.0, 3.0], vec![2.0, 0.0, 5.0], vec![3.0, 2.0, 2.0]];
    let (total, rows, cols) = run_auction(&m);
    assert_eq!(total, 5.0);
    assert_eq!(rows, vec![Some(1), Some(0), Some(2)]);
    assert_eq!(cols, vec![Some(1), Some(0), Some(2)]);
}

#[test]
fn auction_four_by_four() {
    let m = vec![
        vec![10.0, 19.0, 8.0, 15.0],
        vec![10.0, 18.0, 7.0, 17.0],
        vec![13.0, 16.0, 9.0, 14.0],
        vec![12.0, 19.0, 8.0, 18.0],
    ];
    let (total, rows, cols) = run_auction(&m);
    assert_eq!(total, 49.0);
    assert_eq!(rows, vec![Some(3), Some(0), Some(1), Some(2)]);
    assert_eq!(cols, vec![Some(1), Some(2), Some(3), Some(0)]);
}

#[test]
fn auction_single_entry() {
    let (total, rows, cols) = run_auction(&[vec![5.0]]);
    assert_eq!(total, 5.0);
    assert_eq!(rows, vec![Some(0)]);
    assert_eq!(cols, vec![Some(0)]);
}

#[test]
fn auction_rectangular_is_padded_and_trimmed() {
    let m = vec![vec![1.0, 2.0], vec![3.0, 4.0], vec![5.0, 6.0]];
    let (total, rows, cols) = run_auction(&m);
    assert_eq!(total, 5.0);
    assert_eq!(rows, vec![Some(0), Some(1), None]);
    assert_eq!(cols, vec![Some(0), Some(1)]);
}

#[test]
fn auction_empty_matrix() {
    let m: Vec<Vec<f64>> = vec![];
    let (total, rows, cols) = run_auction(&m);
    assert_eq!(total, 0.0);
    assert!(rows.is_empty() && cols.is_empty());
}

#[test]
fn padded_square_reads_only_the_first_n_entries_of_a_row() {
    let m = vec![vec![1.0, 2.0], vec![2.0, 100.0, -100.0]];
    assert_eq!(padded(&m), (4.0, vec![Some(1), Some(0)], vec![Some(1), Some(0)]));
}

#[test]
fn auction_two_by_two() {
    let m = vec![vec![1.0, 2.0], vec![2.0, 100.0]];
    assert_eq!(run_auction(&m), (4.0, vec![Some(1), Some(0)], vec![Some(1), Some(0)]));
}

#[test]
fn auction_price_war_gives_a_complete_assignment() {
    // Three rows want the same two cheap columns; with a tiny epsilon the
    // bidding runs out of rounds, and the answer is still complete.
    let m = vec![vec![0.0, 0.0, 100.0]; 3];
    let (total, rows, cols) = run_auction(&m);
    assert_eq!(total, 100.0);
    let mut seen = vec![false; 3];
    for (i, r) in rows.iter().enumerate() {
        let j = r.unwrap();
        assert!(!seen[j]);
        seen[j] = true;
        assert_eq!(cols[j], Some(i));
    }
}
