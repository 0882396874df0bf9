use fastlap::cost::assignment_cost;
use fastlap::weights::{entrywise, shapes_match};

#[test]
fn shapes() {
    let a = vec![vec![1.0, 2.0], vec![3.0, 4.0]];
    let b = vec![vec![1.0, 1.0], vec![2.0, 2.0]];
    assert!(shapes_match(&a, &b));
    assert!(!shapes_match(&a, &b[..1]));
    assert!(!shapes_match(&a, &[vec![1.0], vec![1.0]]));
    let empty: Vec<Vec<f64>> = vec![];
    assert!(!shapes_match(&empty, &empty));
}

#[test]
fn entrywise_product() {
    let a = vec![vec![1.0, 2.0], vec![3.0, 4.0]];
    let b = vec![vec![2.0, 0.5], vec![1.0, 10.0]];
    assert_eq!(entrywise(&a, &b, &|x: f64, y: f64| x * y), vec![vec![2.0, 1.0], vec![3.0, 40.0]]);
}

#[test]
fn entrywise_stops_at_the_shorter() {
    let a = vec![vec![1, 2, 3], vec![4, 5, 6]];
    let b = vec![vec![1, 1]];
    assert_eq!(entrywise(&a, &b, &|x: i32, y: i32| x + y), vec![vec![2, 3]]);
}

#[test]
fn cost_of_an_assignment() {
    let m = vec![vec![1.0, 2.0], vec![3.0, 4.0], vec![5.0, 6.0]];
    let total = assignment_cost(&m, &vec![Some(1), None, Some(0)], 0.0, &|a: f64, b: f64| a + b);
    assert_eq!(total, 7.0);
}
