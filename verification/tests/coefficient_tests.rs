use isomorphic_graph_creation::{binomial_coefficient, BigNat, Cache, UnrankError};
use num::BigUint;

fn coefficient(n: u64, r: u64) -> u64 {
    binomial_coefficient(&n, &r).unwrap().to_u64().unwrap()
}

#[test]
fn test_binomial_coefficient_two_one() {
    assert_eq!(coefficient(2, 1), 2);
}

#[test]
fn test_binomial_coefficient_three_one() {
    assert_eq!(coefficient(3, 1), 3);
}

#[test]
fn test_binomial_coefficient_three_two() {
    assert_eq!(coefficient(3, 2), 3);
}

#[test]
fn test_binomial_coefficient_two_zero() {
    assert_eq!(coefficient(2, 0), 1);
}

#[test]
fn test_binomial_coefficient_twenty_five() {
    assert_eq!(coefficient(20, 5), 15504);
}

#[test]
fn test_binomial_coefficient_forty_two() {
    assert_eq!(coefficient(40, 2), 780);
}

#[test]
fn test_binomial_coefficient_bigint() {
    let n: u64 = 100;
    let r: u64 = 10;
    let result: u64 = 17310309456440;
    let exact = binomial_coefficient(&n, &r).unwrap();
    assert_eq!(BigUint::new(exact.digits.clone()), BigUint::from(result));
    assert_eq!(exact.to_u64(), Some(result));
}

#[test]
fn test_binomial_coefficient_boundaries() {
    for n in 0..30u64 {
        assert_eq!(coefficient(n, 0), 1);
        assert_eq!(coefficient(n, n), 1);
        for k in 0..=n {
            assert_eq!(coefficient(n, k), coefficient(n, n - k));
        }
    }
}

#[test]
fn test_binomial_coefficient_follows_pascal() {
    for n in 1..25u64 {
        for k in 1..n {
            assert_eq!(coefficient(n, k), coefficient(n - 1, k - 1) + coefficient(n - 1, k));
        }
    }
}

#[test]
fn test_binomial_coefficient_refuses_more_than_there_is() {
    assert_eq!(binomial_coefficient(&3, &4).err(), Some(UnrankError::InvalidArguments));
    assert_eq!(binomial_coefficient(&0, &1).err(), Some(UnrankError::InvalidArguments));
}

#[test]
fn test_binomial_coefficient_beyond_u64() {
    let exact = binomial_coefficient(&100, &50).unwrap();
    assert_eq!(exact.to_u64(), None);
    let expected: BigUint = "100891344545564193334812497256".parse().unwrap();
    assert_eq!(BigUint::new(exact.digits.clone()), expected);
    let largest_that_fits = binomial_coefficient(&67, &33).unwrap();
    assert_eq!(largest_that_fits.to_u64(), Some(14226520737620288370));
    let first_that_does_not = binomial_coefficient(&68, &34).unwrap();
    assert_eq!(first_that_does_not.to_u64(), None);
}

#[test]
fn test_bignat_one() {
    assert_eq!(BigNat::one().to_u64(), Some(1));
}

#[test]
fn test_bignat_to_u64() {
    assert_eq!(BigNat { digits: vec![] }.to_u64(), Some(0));
    assert_eq!(BigNat { digits: vec![7] }.to_u64(), Some(7));
    assert_eq!(BigNat { digits: vec![0, 1] }.to_u64(), Some(4294967296));
    assert_eq!(BigNat { digits: vec![u32::MAX, u32::MAX] }.to_u64(), Some(u64::MAX));
    assert_eq!(BigNat { digits: vec![u32::MAX, u32::MAX, 0, 0] }.to_u64(), Some(u64::MAX));
    assert_eq!(BigNat { digits: vec![0, 0, 1] }.to_u64(), None);
    assert_eq!(BigNat { digits: vec![0, 0, 0, 5, 0] }.to_u64(), None);
}

#[test]
fn test_bignat_duplicate() {
    let number = BigNat { digits: vec![3, 4, 5] };
    assert_eq!(number.duplicate().digits, vec![3, 4, 5]);
}

#[test]
fn test_cache_starts_empty() {
    let cache = Cache::new();
    assert!(cache.get((4, 2)).is_none());
}

#[test]
fn test_cache_returns_what_was_inserted() {
    let mut cache = Cache::new();
    cache.insert((4, 2), BigNat { digits: vec![6] });
    assert_eq!(cache.get((4, 2)).unwrap().to_u64(), Some(6));
    assert!(cache.get((2, 4)).is_none());
    assert!(cache.get((4, 3)).is_none());
}

#[test]
fn test_cache_keeps_the_first_entry() {
    let mut cache = Cache::new();
    cache.insert((4, 2), BigNat { digits: vec![6] });
    cache.insert((4, 2), BigNat { digits: vec![7] });
    assert_eq!(cache.get((4, 2)).unwrap().to_u64(), Some(6));
}

#[test]
fn test_cache_computes_and_records() {
    let mut cache = Cache::new();
    assert_eq!(cache.coefficient(20, 5).unwrap().to_u64(), Some(15504));
    assert_eq!(cache.get((20, 5)).unwrap().to_u64(), Some(15504));
    assert_eq!(cache.coefficient(20, 5).unwrap().to_u64(), Some(15504));
    assert_eq!(cache.coefficient(5, 20).err(), Some(UnrankError::InvalidArguments));
    assert!(cache.get((5, 20)).is_none());
}

#[test]
fn test_caches_are_independent() {
    let mut first = Cache::new();
    let second = Cache::new();
    first.insert((40, 2), BigNat { digits: vec![780] });
    assert!(second.get((40, 2)).is_none());
}
