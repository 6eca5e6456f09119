use bigcalc::bignum::Natural;
use bigcalc::lucas::jacobi;
use bigcalc::sieve;
use num_integer::Roots;
use std::collections::HashSet;

fn jacobi_u32(m: u32, n: u32) -> i32 {
    jacobi(&Natural::from_u32(m), &Natural::from_u32(n))
}

fn is_square(n: u32) -> bool {
    n.sqrt() * n.sqrt() == n
}

#[test]
fn sieve_test() {
    assert_eq!(sieve(50), [2, 3, 5, 7, 11, 13, 17, 19, 23, 29, 31, 37, 41, 43, 47]);
}

#[test]
fn jacobi_test() {
    assert_eq!(jacobi_u32(45, 77), -1);
    assert_eq!(jacobi_u32(60, 121), 1);
    assert_eq!(jacobi_u32(365, 1847), 1);
    assert_eq!(jacobi_u32(1001, 9907), -1);
    assert_eq!(jacobi_u32(1236, 20003), 1);
}

#[test]
fn jacobi_properties_test() {
    // multiplicative in the upper argument
    assert_eq!(jacobi_u32(15, 77), jacobi_u32(3, 77) * jacobi_u32(5, 77));
    assert_eq!(jacobi_u32(45, 77), jacobi_u32(9, 77) * jacobi_u32(5, 77));
    assert_eq!(jacobi_u32(35, 1847), jacobi_u32(5, 1847) * jacobi_u32(7, 1847));
    // quadratic reciprocity for odd coprime arguments: the two symbols agree
    // unless both arguments are 3 mod 4, when they are opposite
    assert_eq!(jacobi_u32(45, 77), jacobi_u32(77, 45));
    assert_eq!(jacobi_u32(1001, 9907), jacobi_u32(9907, 1001));
    assert_eq!(jacobi_u32(7, 11), -jacobi_u32(11, 7));
}

#[test]
fn trivial_prime_test() {
    assert!(!bigcalc::trivial_prime_test(&0u32.to_le_bytes()));
    assert!(!bigcalc::trivial_prime_test(&1u32.to_le_bytes()));
    assert!(bigcalc::trivial_prime_test(&2u32.to_le_bytes()));
    assert!(!bigcalc::trivial_prime_test(&4u32.to_le_bytes()));
    assert!(!bigcalc::trivial_prime_test(&49u32.to_le_bytes()));
    assert!(bigcalc::trivial_prime_test(&997u32.to_le_bytes()));
    // 1018081 == 1009 * 1009 has no factor below 1000, but is a square
    assert!(!bigcalc::trivial_prime_test(&1018081u32.to_le_bytes()));
    // 1018091 is prime, with no factor below 1000
    assert!(bigcalc::trivial_prime_test(&1018091u32.to_le_bytes()));
}

#[test]
fn miller_rabin_test() {
    let max = 50000u32;
    let odd_primes: HashSet<u32> = sieve(max).into_iter().skip(1).collect();
    let miller_rabin_primes: HashSet<u32> = (3..max)
        .step_by(2)
        .filter(|n| bigcalc::miller_rabin_test(&n.to_le_bytes()))
        .collect();

    assert!(odd_primes.is_subset(&miller_rabin_primes));

    assert_eq!(
        &miller_rabin_primes - &odd_primes,
        vec![2047, 3277, 4033, 4681, 8321, 15841, 29341, 42799, 49141].into_iter().collect()
    );
}

#[test]
fn lucas_test() {
    let max = 50000u32;
    let odd_primes: HashSet<u32> = sieve(max).into_iter().skip(1).collect();
    let lucas_primes: HashSet<u32> = (3..max)
        .step_by(2)
        .filter(|n| !is_square(*n) && bigcalc::extra_strong_lucas_test(&n.to_le_bytes()))
        .collect();

    assert!(odd_primes.is_subset(&lucas_primes));

    assert_eq!(
        &lucas_primes - &odd_primes,
        vec![989, 3239, 5777, 10877, 27971, 29681, 30739, 31631, 39059].into_iter().collect()
    );
}
