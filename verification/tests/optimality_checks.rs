use fastlap::lap::auction;
use fastlap::sap::sap_solve;
use fastlap::utils::solve_padded;

fn plus(a: f64, b: f64) -> f64 {
    a + b
}

fn minus(a: f64, b: f64) -> f64 {
    a - b
}

fn less(a: f64, b: f64) -> bool {
    a < b
}

/// A small linear congruential generator, so that the cases are reproducible.
struct Lcg(u64);

impl Lcg {
    fn next(&mut self) -> u64 {
        self.0 = self.0.wrapping_mul(6364136223846793005).wrapping_add(1442695040888963407);
        self.0 >> 33
    }
}

fn random_matrix(rng: &mut Lcg, nrows: usize, ncols: usize) -> Vec<Vec<f64>> {
    (0..nrows)
        .map(|_| (0..ncols).map(|_| (rng.next() % 50) as f64 - 10.0).collect())
        .collect()
}

/// The least cost over all ways of giving `min(nrows, ncols)` rows distinct
/// columns, by trying them all.
fn brute_force(m: &[Vec<f64>]) -> f64 {
    fn go(m: &[Vec<f64>], r: usize, used: &mut Vec<bool>, left: usize) -> f64 {
        if left == 0 {
            return 0.0;
        }
        if m.len() - r < left {
            return f64::INFINITY;
        }
        // Row `r` may stay without a column when there are rows to spare.
        let mut best = go(m, r + 1, used, left);
        for c in 0..used.len() {
            if !used[c] {
                used[c] = true;
                let rest = go(m, r + 1, used, left - 1);
                used[c] = false;
                if m[r][c] + rest < best {
                    best = m[r][c] + rest;
                }
            }
        }
        best
    }
    let ncols = m[0].len();
    go(m, 0, &mut vec![false; ncols], m.len().min(ncols))
}

fn check_solution(m: &[Vec<f64>], total: f64, rows: &[Option<usize>], cols: &[Option<usize>]) {
    assert_eq!(rows.len(), m.len());
    assert_eq!(cols.len(), m[0].len());
    let mut sum = 0.0;
    for (i, r) in rows.iter().enumerate() {
        if let Some(j) = r {
            assert_eq!(cols[*j], Some(i));
            sum += m[i][*j];
        }
    }
    for (j, c) in cols.iter().enumerate() {
        if let Some(i) = c {
            assert_eq!(rows[*i], Some(j));
        }
    }
    assert_eq!(rows.iter().filter(|r| r.is_some()).count(), m.len().min(m[0].len()));
    assert_eq!(sum, total);
}

#[test]
fn square_solutions_are_least_cost() {
    let mut rng = Lcg(7);
    for n in 1..=6 {
        for _ in 0..20 {
            let m = random_matrix(&mut rng, n, n);
            let (total, rows, cols) = sap_solve(&m, 0.0, &plus, &minus, &less);
            check_solution(&m, total, &rows, &cols);
            assert_eq!(total, brute_force(&m));
        }
    }
}

#[test]
fn rectangular_solutions_are_least_cost() {
    let mut rng = Lcg(11);
    for nrows in 1..=5 {
        for ncols in 1..=5 {
            for _ in 0..10 {
                let m = random_matrix(&mut rng, nrows, ncols);
                let fill = m.iter().flatten().cloned().fold(f64::NEG_INFINITY, f64::max) + 1.0;
                let (total, rows, cols) = solve_padded(&m, fill, 0.0, &plus, &minus, &less);
                check_solution(&m, total, &rows, &cols);
                assert_eq!(total, brute_force(&m));
            }
        }
    }
}

#[test]
fn padding_value_does_not_change_the_optimum() {
    let mut rng = Lcg(3);
    for _ in 0..20 {
        let m = random_matrix(&mut rng, 2, 5);
        let low = solve_padded(&m, -100.0, 0.0, &plus, &minus, &less);
        let high = solve_padded(&m, 1e6, 0.0, &plus, &minus, &less);
        assert_eq!(low.0, high.0);
        assert_eq!(low.0, brute_force(&m));
    }
}

#[test]
fn auction_rectangular_is_least_cost() {
    let mut rng = Lcg(5);
    for _ in 0..20 {
        let m = random_matrix(&mut rng, 4, 2);
        let max_cost = m.iter().flatten().cloned().fold(f64::NEG_INFINITY, f64::max);
        let (total, rows, cols) =
            auction::solve(&m, max_cost + 1.0, 1e-9, 0.0, &plus, &minus, &less);
        check_solution(&m, total, &rows, &cols);
        assert_eq!(total, brute_force(&m));
    }
}

#[test]
fn auction_square_gives_a_consistent_matching() {
    let mut rng = Lcg(13);
    for n in 1..=5 {
        let m = random_matrix(&mut rng, n, n);
        let max_cost = m.iter().flatten().cloned().fold(f64::NEG_INFINITY, f64::max);
        let epsilon = (max_cost.abs() * 1e-9).max(1e-12);
        let (total, rows, cols) = auction::solve(&m, max_cost + 1.0, epsilon, 0.0, &plus, &minus, &less);
        let mut sum = 0.0;
        for (i, r) in rows.iter().enumerate() {
            if let Some(j) = r {
                assert_eq!(cols[*j], Some(i));
                sum += m[i][*j];
            }
        }
        assert_eq!(sum, total);
    }
}

#[test]
fn auction_square_is_within_n_epsilon_of_the_optimum() {
    let mut rng = Lcg(29);
    for n in 1..=5 {
        for epsilon in [1.0, 3.0, 10.0] {
            let m = random_matrix(&mut rng, n, n);
            let (total, rows, cols) = auction::solve(&m, 0.0, epsilon, 0.0, &plus, &minus, &less);
            check_solution(&m, total, &rows, &cols);
            let best = brute_force(&m);
            assert!(best <= total);
            assert!(total <= best + n as f64 * epsilon);
        }
    }
}

#[test]
fn auction_square_small_epsilon_finds_the_optimum() {
    let mut rng = Lcg(31);
    for n in 1..=5 {
        let m = random_matrix(&mut rng, n, n);
        // Integer costs: a total within n * epsilon < 1 of the optimum is the optimum.
        let epsilon = 0.5 / n as f64;
        let (total, rows, cols) = auction::solve(&m, 0.0, epsilon, 0.0, &plus, &minus, &less);
        check_solution(&m, total, &rows, &cols);
        assert_eq!(total, brute_force(&m));
    }
}

#[test]
fn padded_solver_agrees_with_the_square_solver() {
    let mut rng = Lcg(37);
    for n in 1..=5 {
        let m = random_matrix(&mut rng, n, n);
        let (padded_total, rows, cols) = solve_padded(&m, 1000.0, 0.0, &plus, &minus, &less);
        let (square_total, _, _) = sap_solve(&m, 0.0, &plus, &minus, &less);
        assert_eq!(padded_total, square_total);
        assert!(rows.iter().all(|r| r.is_some()));
        assert!(cols.iter().all(|c| c.is_some()));
    }
}

#[test]
fn shifting_a_row_shifts_the_optimum() {
    let mut rng = Lcg(41);
    for n in 1..=5 {
        let m = random_matrix(&mut rng, n, n);
        let (total, rows, _) = sap_solve(&m, 0.0, &plus, &minus, &less);
        let k = n / 2;
        let mut shifted = m.clone();
        for x in shifted[k].iter_mut() {
            *x += 7.0;
        }
        let (shifted_total, _, _) = sap_solve(&shifted, 0.0, &plus, &minus, &less);
        assert_eq!(shifted_total, total + 7.0);
        let kept: f64 = rows.iter().enumerate().map(|(i, r)| shifted[i][r.unwrap()]).sum();
        assert_eq!(kept, shifted_total);
    }
}

#[test]
fn transposing_keeps_the_optimum() {
    let mut rng = Lcg(43);
    for n in 1..=5 {
        let m = random_matrix(&mut rng, n, n);
        let flipped: Vec<Vec<f64>> = (0..n).map(|i| (0..n).map(|j| m[j][i]).collect()).collect();
        let (total, _, cols) = sap_solve(&m, 0.0, &plus, &minus, &less);
        let (flipped_total, _, _) = sap_solve(&flipped, 0.0, &plus, &minus, &less);
        assert_eq!(flipped_total, total);
        let by_columns: f64 = cols.iter().enumerate().map(|(j, c)| flipped[j][c.unwrap()]).sum();
        assert_eq!(by_columns, total);
    }
}
