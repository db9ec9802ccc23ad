use math_comb::pollard::{factor, first_divisor, is_prime, modmul, pollard};
use math_comb::{Comb, Prime, Spf};

#[test]
fn test_is_prime() {
    assert_eq!(is_prime(2), true);
    assert_eq!(is_prime(1000000007), true);
    assert_eq!(is_prime(21), false);
    assert_eq!(is_prime(10079), true);
    assert_eq!(is_prime(1000429), true);
    assert_eq!(is_prime(1000013), false);
    assert_eq!(is_prime(1000067), false);
}

#[test]
fn test_get_factors() {
    assert_eq!(factor(1000429 * 15), vec![3, 5, 1000429]);
    assert_eq!(factor(24), vec![2, 2, 2, 3]);
    assert_eq!(factor(45), vec![3, 3, 5]);
    assert_eq!(factor(1000000007), vec![1000000007]);
    assert_eq!(factor(346789), vec![239, 1451]);
    assert_eq!(factor(34486788), vec![2, 2, 3, 7, 7, 89, 659]);
}

#[test]
fn is_prime_small_numbers() {
    let expected: [bool; 30] = [
        false, false, true, true, false, true, false, true, false, false, false, true, false, true,
        false, false, false, true, false, true, false, false, false, true, false, false, false,
        false, false, true,
    ];
    for n in 0..30u64 {
        assert_eq!(is_prime(n), expected[n as usize], "n = {}", n);
    }
}

#[test]
fn is_prime_large_primes() {
    assert!(is_prime(18446744073709551557));
    assert!(is_prime(2305843009213693951));
    assert!(is_prime(4294967291));
    assert!(is_prime(998244353));
}

#[test]
fn is_prime_rejects_pseudoprimes() {
    // Carmichael numbers.
    assert!(!is_prime(561));
    assert!(!is_prime(41041));
    assert!(!is_prime(825265));
    // Strong pseudoprimes to the bases 2, 3, 5 and 7.
    assert!(!is_prime(3215031751));
    // Strong pseudoprime to the first nine prime bases.
    assert!(!is_prime(3825123056546413051));
    assert!(!is_prime(346789));
    assert!(!is_prime(u64::MAX));
    assert!(!is_prime(18446744030759878681));
}

#[test]
fn is_prime_rejects_witness_multiples() {
    // Composite multiples of the bases themselves.
    assert!(!is_prime(325));
    assert!(!is_prime(9375));
    assert!(!is_prime(28178));
    assert!(!is_prime(450775));
    assert!(!is_prime(9780504));
    assert!(!is_prime(1795265022));
}

fn agrees_with_sieve(lo: usize, hi: usize) {
    let table = Spf::new(hi);
    for n in lo..=hi {
        let by_sieve = n >= 2 && table.get_spf(n as u64).unwrap() == n as u64;
        assert_eq!(is_prime(n as u64), by_sieve, "n = {}", n);
    }
}

#[test]
fn is_prime_agrees_with_sieve_to_1e6() {
    agrees_with_sieve(0, 1_000_000);
}

#[test]
fn is_prime_agrees_with_sieve_to_2e6() {
    agrees_with_sieve(1_000_000, 2_000_000);
}

#[test]
fn is_prime_agrees_with_sieve_to_3e6() {
    agrees_with_sieve(2_000_000, 3_000_000);
}

#[test]
fn is_prime_agrees_with_sieve_to_4e6() {
    agrees_with_sieve(3_000_000, 4_000_000);
}

#[test]
fn is_prime_agrees_with_sieve_to_5e6() {
    agrees_with_sieve(4_000_000, 5_000_000);
}

#[test]
fn is_prime_agrees_with_sieve_to_6e6() {
    agrees_with_sieve(5_000_000, 6_000_000);
}

#[test]
fn is_prime_agrees_with_sieve_to_7e6() {
    agrees_with_sieve(6_000_000, 7_000_000);
}

#[test]
fn is_prime_agrees_with_sieve_to_8e6() {
    agrees_with_sieve(7_000_000, 8_000_000);
}

#[test]
fn is_prime_agrees_with_sieve_to_9e6() {
    agrees_with_sieve(8_000_000, 9_000_000);
}

#[test]
fn is_prime_agrees_with_sieve_to_1e7() {
    agrees_with_sieve(9_000_000, 10_000_000);
}

#[test]
fn is_prime_agrees_with_trial_division() {
    for n in 0..20_000u64 {
        assert_eq!(is_prime(n), Comb::check_prime(n), "n = {}", n);
    }
}

#[test]
fn factor_of_one_is_empty() {
    assert_eq!(factor(1), Vec::<u64>::new());
}

#[test]
fn factor_of_a_prime_is_itself() {
    let primes: [u64; 6] = [2, 3, 5, 1000000007, 2305843009213693951, 18446744073709551557];
    for &p in primes.iter() {
        assert_eq!(factor(p), vec![p]);
    }
}

fn check_factorization(n: u64) {
    let fs = factor(n);
    let mut prod: u128 = 1;
    for w in fs.windows(2) {
        assert!(w[0] <= w[1]);
    }
    for &f in fs.iter() {
        assert!(is_prime(f), "{} in the factors of {}", f, n);
        prod *= f as u128;
    }
    assert_eq!(prod, n as u128);
}

#[test]
fn factor_gives_primes_with_the_right_product() {
    for n in 1..3000u64 {
        check_factorization(n);
    }
    let big: [u64; 8] = [
        u64::MAX,
        u64::MAX - 1,
        1 << 63,
        998244359987710471,
        18446744030759878681,
        600851475143,
        1000000007 * 1000000009,
        9007199254740993,
    ];
    for &n in big.iter() {
        check_factorization(n);
    }
}

#[test]
fn factor_large_values() {
    assert_eq!(factor(u64::MAX), vec![3, 5, 17, 257, 641, 65537, 6700417]);
    assert_eq!(factor(998244359987710471), vec![998244353, 1000000007]);
    assert_eq!(factor(18446744030759878681), vec![4294967291, 4294967291]);
    assert_eq!(factor(1 << 20), vec![2; 20]);
    assert_eq!(factor(600851475143), vec![71, 839, 1471, 6857]);
}

#[test]
fn pollard_finds_a_nontrivial_divisor() {
    let composites: [u64; 10] = [
        4,
        6,
        9,
        15,
        25,
        346789,
        1000429 * 15,
        998244359987710471,
        18446744030759878681,
        u64::MAX,
    ];
    for &n in composites.iter() {
        let d = pollard(n);
        assert!(1 < d && d < n, "n = {}, d = {}", n, d);
        assert_eq!(n % d, 0);
    }
}

#[test]
fn pollard_on_every_small_composite() {
    for n in 4..5000u64 {
        if !Comb::check_prime(n) {
            let d = pollard(n);
            assert!(1 < d && d < n, "n = {}, d = {}", n, d);
            assert_eq!(n % d, 0);
        }
    }
}

#[test]
fn first_divisor_is_the_smallest() {
    assert_eq!(first_divisor(4), 2);
    assert_eq!(first_divisor(9), 3);
    assert_eq!(first_divisor(15), 3);
    assert_eq!(first_divisor(346789), 239);
    assert_eq!(first_divisor(1000003 * 1000003), 1000003);
    assert_eq!(first_divisor(u64::MAX), 3);
}

#[test]
fn modmul_values() {
    assert_eq!(modmul(3, 4, 5), 2);
    assert_eq!(modmul(0, 4, 5), 0);
    assert_eq!(modmul(7, 8, 1), 0);
    assert_eq!(modmul(u64::MAX, u64::MAX, u64::MAX), 0);
    assert_eq!(modmul(u64::MAX - 1, u64::MAX - 1, u64::MAX), 1);
    // 2^32 * 2^32 = 2^64 = 1 + (2^64 - 1).
    assert_eq!(modmul(1 << 32, 1 << 32, u64::MAX), 1);
    assert_eq!(modmul(123456789012345678, 987654321098765432, 1000000007), {
        let a: u128 = 123456789012345678;
        let b: u128 = 987654321098765432;
        (a * b % 1000000007) as u64
    });
}

#[test]
fn prime_facade_agrees() {
    assert_eq!(Prime::is_prime(1000000007), true);
    assert_eq!(Prime::is_prime(1000013), false);
    assert_eq!(Prime::factor(24), vec![2, 2, 2, 3]);
    assert_eq!(Prime::factor(1), Vec::<u64>::new());
    let d = Prime::pollard(346789);
    assert!(d == 239 || d == 1451);
}
