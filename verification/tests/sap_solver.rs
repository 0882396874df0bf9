use fastlap::sap::sap_solve;

fn plus(a: f64, b: f64) -> f64 {
    a + b
}

fn minus(a: f64, b: f64) -> f64 {
    a - b
}

fn less(a: f64, b: f64) -> bool {
    a < b
}

fn solve(m: &[Vec<f64>]) -> (f64, Vec<Option<usize>>, Vec<Option<usize>>) {
    sap_solve(m, 0.0, &plus, &minus, &less)
}

fn assert_consistent(rows: &[Option<usize>], cols: &[Option<usize>]) {
    for (i, r) in rows.iter().enumerate() {
        if let Some(j) = r {
            assert_eq!(cols[*j], Some(i));
        }
    }
    for (j, c) in cols.iter().enumerate() {
        if let Some(i) = c {
            assert_eq!(rows[*i], Some(j));
        }
    }
}

#[test]
fn sap_empty_matrix() {
    let m: Vec<Vec<f64>> = vec![];
    let (total, rows, cols) = solve(&m);
    assert_eq!(total, 0.0);
    assert!(rows.is_empty());
    assert!(cols.is_empty());
}

#[test]
fn sap_single_entry() {
    let (total, rows, cols) = solve(&[vec![5.0]]);
    assert_eq!(total, 5.0);
    assert_eq!(rows, vec![Some(0)]);
    assert_eq!(cols, vec![Some(0)]);
}

#[test]
fn sap_unique_optimum() {
    let m = vec![vec![4.0, 1.0, 3.0], vec![2.0, 0.0, 5.0], vec![3.0, 2.0, 2.0]];
    let (total, rows, cols) = solve(&m);
    assert_eq!(total, 5.0);
    assert_eq!(rows, vec![Some(1), Some(0), Some(2)]);
    assert_eq!(cols, vec![Some(1), Some(0), Some(2)]);
}

#[test]
fn sap_readme_matrix() {
    let m = vec![vec![1.0, 2.0, 3.0], vec![4.0, 5.0, 6.0], vec![7.0, 8.0, 9.0]];
    let (total, rows, cols) = solve(&m);
    assert_eq!(total, 15.0);
    assert_eq!(rows, vec![Some(0), Some(1), Some(2)]);
    assert_eq!(cols, vec![Some(0), Some(1), Some(2)]);
}

#[test]
fn sap_four_by_four() {
    let m = vec![
        vec![10.0, 19.0, 8.0, 15.0],
        vec![10.0, 18.0, 7.0, 17.0],
        vec![13.0, 16.0, 9.0, 14.0],
        vec![12.0, 19.0, 8.0, 18.0],
    ];
    let (total, rows, cols) = solve(&m);
    assert_eq!(total, 49.0);
    assert_eq!(rows, vec![Some(3), Some(0), Some(1), Some(2)]);
    assert_eq!(cols, vec![Some(1), Some(2), Some(3), Some(0)]);
}

#[test]
fn sap_ties_keep_a_perfect_matching() {
    let m = vec![vec![3.0, 3.0], vec![3.0, 3.0]];
    let (total, rows, cols) = solve(&m);
    assert_eq!(total, 6.0);
    assert_consistent(&rows, &cols);
    assert!(rows.iter().all(|r| r.is_some()));
    assert!(cols.iter().all(|c| c.is_some()));
}

#[test]
fn sap_negative_costs() {
    let m = vec![vec![-1.0, -5.0], vec![-3.0, -2.0]];
    let (total, rows, cols) = solve(&m);
    assert_eq!(total, -8.0);
    assert_eq!(rows, vec![Some(1), Some(0)]);
    assert_eq!(cols, vec![Some(1), Some(0)]);
}

#[test]
fn sap_integer_costs() {
    let m: Vec<Vec<i64>> = vec![vec![7, 53, 183], vec![497, 383, 563], vec![79, 68, 127]];
    let (total, rows, cols) = sap_solve(&m, 0i64, &|a: i64, b: i64| a + b, &|a: i64, b: i64| a - b, &|a: i64, b: i64| a < b);
    assert_eq!(total, 7 + 383 + 127);
    assert_eq!(rows, vec![Some(0), Some(1), Some(2)]);
    assert_eq!(cols, vec![Some(0), Some(1), Some(2)]);
}

#[test]
fn sap_longer_rows_are_read_up_to_n() {
    let m = vec![vec![1.0, 9.0, 100.0], vec![9.0, 1.0, 100.0]];
    let (total, rows, _) = solve(&m);
    assert_eq!(total, 2.0);
    assert_eq!(rows, vec![Some(0), Some(1)]);
}
