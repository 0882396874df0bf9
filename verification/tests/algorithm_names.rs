use fastlap::names::{select_algorithm, supported_algorithms, Algorithm};
use fastlap::text::{push_decimal, str_equal};

#[test]
fn supported_list() {
    assert_eq!(
        supported_algorithms(),
        &["lapjv", "hungarian", "lapmod", "subgradient", "auction", "dantzig"]
    );
}

#[test]
fn every_listed_name_selects_an_algorithm() {
    let expected = [
        Algorithm::Lapjv,
        Algorithm::Hungarian,
        Algorithm::Lapmod,
        Algorithm::Subgradient,
        Algorithm::Auction,
        Algorithm::Dantzig,
    ];
    for (name, algorithm) in supported_algorithms().iter().zip(expected.iter()) {
        assert_eq!(select_algorithm(name), Ok(*algorithm));
    }
}

#[test]
fn unknown_name_is_refused_with_the_list() {
    assert_eq!(
        select_algorithm("simplex"),
        Err("Unknown algorithm 'simplex'. Supported: lapjv, hungarian, lapmod, subgradient, auction, dantzig"
            .to_string())
    );
}

#[test]
fn names_are_case_sensitive() {
    assert!(select_algorithm("LAPJV").is_err());
    assert!(select_algorithm("").is_err());
    assert!(select_algorithm("lapjv ").is_err());
}

#[test]
fn string_equality() {
    assert!(str_equal("auction", "auction"));
    assert!(!str_equal("auction", "auctions"));
    assert!(!str_equal("é", "e"));
    assert!(str_equal("", ""));
}

#[test]
fn decimal_digits() {
    let mut s = String::from("n=");
    push_decimal(&mut s, 0);
    assert_eq!(s, "n=0");
    let mut t = String::new();
    push_decimal(&mut t, 9087);
    assert_eq!(t, "9087");
    let mut m = String::new();
    push_decimal(&mut m, usize::MAX);
    assert_eq!(m, usize::MAX.to_string());
}
