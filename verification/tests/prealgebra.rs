use ladderz::prealgebra::{
    get_factor_pairs, get_factors, get_multiples_in_range, get_prime_factorization,
    get_primes_in_range, is_composite, is_factor, is_multiple, is_prime,
};
use std::collections::{HashMap, HashSet};

#[test]
fn test_get_factor_pairs() {
    let result: HashSet<(u32, u32)> = get_factor_pairs(1).into_iter().collect();
    let expected: HashSet<(u32, u32)> = [(1, 1)].into();
    assert_eq!(result, expected);

    let result_2: HashSet<(u32, u32)> = get_factor_pairs(16).into_iter().collect();
    let expected_2: HashSet<(u32, u32)> = [(1, 16), (2, 8), (4, 4)].into();
    assert_eq!(result_2, expected_2);
}

#[test]
fn test_get_factors() {
    let result: HashSet<u32> = get_factors(1).into_iter().collect();
    let expected: HashSet<u32> = [1].into();
    assert_eq!(result, expected);

    let result_2: HashSet<u32> = get_factors(16).into_iter().collect();
    let expected_2: HashSet<u32> = [1, 2, 4, 8, 16].into();
    assert_eq!(result_2, expected_2);
}

#[test]
fn test_is_factor() {
    let result: bool = true;
    let expected: bool = is_factor(2, 10);
    assert_eq!(result, expected);

    let result_2: bool = false;
    let expected_2: bool = is_factor(3, 10);
    assert_eq!(result_2, expected_2);
}

#[test]
fn test_is_multiple() {
    let result: bool = true;
    let expected: bool = is_multiple(10, 2);
    assert_eq!(result, expected);

    let result_2: bool = false;
    let expected_2: bool = is_multiple(11, 2);
    assert_eq!(result_2, expected_2);
}

#[test]
fn test_get_multiples_in_range() {
    let result: HashSet<u32> = get_multiples_in_range(2, 20).into_iter().collect();
    let expected: HashSet<u32> = [2, 4, 6, 8, 10, 12, 14, 16, 18, 20].into();
    assert_eq!(result, expected);

    let result_2: HashSet<u32> = get_multiples_in_range(5, 34).into_iter().collect();
    let expected_2: HashSet<u32> = [5, 10, 15, 20, 25, 30].into();
    assert_eq!(result_2, expected_2);

    let result_3: HashSet<u32> = get_multiples_in_range(7, 11).into_iter().collect();
    let expected_3: HashSet<u32> = [7].into();
    assert_eq!(expected_3, result_3);
}

#[test]
fn test_is_prime() {
    assert!(!is_prime(1));
    assert!(is_prime(2));
    assert!(is_prime(3));
    assert!(!is_prime(51));
    assert!(is_prime(23));
    assert!(!is_prime(9514));
}

#[test]
fn test_is_composite() {
    assert!(!is_composite(1));
    assert!(!is_composite(2));
    assert!(!is_composite(3));
    assert!(is_composite(4));
    assert!(is_composite(8));
    assert!(is_composite(27));
    assert!(is_composite(51));
}

#[test]
fn test_get_primes_in_range() {
    let result: HashSet<u32> = get_primes_in_range(2, 10).into_iter().collect();
    let expected: HashSet<u32> = [2, 3, 5, 7].into();
    assert_eq!(result, expected);

    let result_2: HashSet<u32> = get_primes_in_range(1, 10).into_iter().collect();
    let expected_2: HashSet<u32> = [2, 3, 5, 7].into();
    assert_eq!(result_2, expected_2);

    let result_3: HashSet<u32> = get_primes_in_range(1, 1).into_iter().collect();
    let expected_3: HashSet<u32> = [].into();
    assert_eq!(result_3, expected_3);

    let result_4: HashSet<u32> = get_primes_in_range(1, 50).into_iter().collect();
    let expected_4: HashSet<u32> =
        [2, 3, 5, 7, 11, 13, 17, 19, 23, 29, 31, 37, 41, 43, 47].into();
    assert_eq!(result_4, expected_4);
}

#[test]
fn test_get_prime_factorization() {
    let result: HashMap<u32, u32> = get_prime_factorization(1).into_iter().collect();
    let expected: HashMap<u32, u32> = HashMap::new();
    assert_eq!(result, expected);

    let result_2: HashMap<u32, u32> = get_prime_factorization(12).into_iter().collect();
    let expected_2: HashMap<u32, u32> = [(2, 2), (3, 1)].into();
    assert_eq!(result_2, expected_2);

    let result_3: HashMap<u32, u32> = get_prime_factorization(16).into_iter().collect();
    let expected_3: HashMap<u32, u32> = [(2, 4)].into();
    assert_eq!(result_3, expected_3);

    let result_4: HashMap<u32, u32> = get_prime_factorization(27).into_iter().collect();
    let expected_4: HashMap<u32, u32> = [(3, 3)].into();
    assert_eq!(result_4, expected_4);

    let result_5: HashMap<u32, u32> = get_prime_factorization(51).into_iter().collect();
    let expected_5: HashMap<u32, u32> = [(3, 1), (17, 1)].into();
    assert_eq!(result_5, expected_5);
}

#[test]
fn factors_are_sorted_and_bracketed_by_one_and_n() {
    for n in [1u32, 2, 12, 16, 36, 97, 100] {
        let factors = get_factors(n);
        assert_eq!(factors.first(), Some(&1));
        assert_eq!(factors.last(), Some(&n));
        for w in factors.windows(2) {
            assert!(w[0] < w[1]);
        }
        for a in &factors {
            assert_eq!(n % a, 0);
        }
    }
}

#[test]
fn factor_count_matches_pair_count() {
    for n in 1u32..=200 {
        let factors = get_factors(n);
        let pairs = get_factor_pairs(n);
        let square_root = (1u32..=n).find(|s| s * s == n);
        let adjustment = if square_root.is_some() { 1 } else { 0 };
        assert_eq!(factors.len() + adjustment, 2 * pairs.len());
    }
}

#[test]
fn factor_pairs_multiply_back_to_n() {
    for n in 1u32..=120 {
        for (a, b) in get_factor_pairs(n) {
            assert_eq!(a * b, n);
            assert!(a <= b);
        }
    }
}

#[test]
fn prime_factorization_product_restores_n() {
    for n in 1u32..=500 {
        let factorization = get_prime_factorization(n);
        let product: u32 = factorization
            .iter()
            .map(|&(p, e)| p.pow(e))
            .product();
        assert_eq!(product, n);
        assert_eq!(factorization.is_empty(), n == 1);
        for &(p, e) in &factorization {
            assert!(is_prime(p));
            assert!(e >= 1);
        }
        for w in factorization.windows(2) {
            assert!(w[0].0 < w[1].0);
        }
    }
}

#[test]
fn prime_agrees_with_not_composite() {
    assert!(!is_prime(1) && !is_composite(1));
    for n in 2u32..=300 {
        assert_eq!(is_prime(n), !is_composite(n));
    }
}

#[test]
fn multiples_empty_when_range_ends_before_n() {
    assert!(get_multiples_in_range(9, 8).is_empty());
    assert_eq!(get_multiples_in_range(9, 9), vec![9]);
}

#[test]
fn repeated_calls_agree() {
    assert_eq!(get_factors(60), get_factors(60));
    assert_eq!(get_factor_pairs(60), get_factor_pairs(60));
    assert_eq!(get_multiples_in_range(6, 60), get_multiples_in_range(6, 60));
    assert_eq!(get_primes_in_range(1, 60), get_primes_in_range(1, 60));
    assert_eq!(get_prime_factorization(60), get_prime_factorization(60));
}

#[test]
fn large_prime_values() {
    assert!(is_prime(65521));
    assert!(!is_composite(65521));
    assert_eq!(get_prime_factorization(65521), vec![(65521, 1)]);
}
