use math_comb::modexp::ModInvError;
use math_comb::{Comb, CombError, Spf, SpfError};

#[test]
fn test_ncr() {
    let comb: Comb = Comb::new(1000000007, 5).unwrap();
    assert_eq!(comb.nCr(5, 2).unwrap(), 10);
    assert_eq!(comb.nCr(4, 0).unwrap(), 1);
    assert_eq!(comb.nCr(4, 4).unwrap(), 1);
}

#[test]
fn test_npr() {
    let comb: Comb = Comb::new(1000000007, 5).unwrap();
    assert_eq!(comb.nPr(5, 2).unwrap(), 60);
    assert_eq!(comb.nPr(5, 0).unwrap(), 120);
    assert_eq!(comb.nPr(5, 5).unwrap(), 1);
}

#[test]
fn test_ncr_small_mod() {
    let comb: Comb = Comb::new(7, 5).unwrap();
    assert_eq!(comb.nCr(5, 2).unwrap(), 3);
    assert_eq!(comb.nCr(4, 0).unwrap(), 1);
    assert_eq!(comb.nCr(4, 3).unwrap(), 4);
    assert_eq!(comb.nCr(5, 0).unwrap(), 1);

    let comb: Comb = Comb::new(2, 1).unwrap();
    assert_eq!(comb.nCr(1, 1).unwrap(), 1);
    assert_eq!(comb.nCr(1, 0).unwrap(), 1);
    assert_eq!(comb.nCr(0, 0).unwrap(), 1);
}

#[test]
fn test_npr_small_mod() {
    let comb: Comb = Comb::new(7, 5).unwrap();
    assert_eq!(comb.nPr(5, 2).unwrap(), 4);
    assert_eq!(comb.nPr(4, 0).unwrap(), 3);
    assert_eq!(comb.nPr(4, 3).unwrap(), 4);
    let comb: Comb = Comb::new(2, 1).unwrap();
    assert_eq!(comb.nPr(1, 1).unwrap(), 1);
    assert_eq!(comb.nPr(1, 0).unwrap(), 1);
    assert_eq!(comb.nPr(0, 0).unwrap(), 1);
}

#[test]
fn ncr_refuses_n_less_than_r() {
    let comb = Comb::new(1000000007, 5).unwrap();
    assert_eq!(comb.nCr(2, 5), Err(CombError::NLessThanR));
    // The order of the two refusals: `n < r` comes first.
    assert_eq!(comb.nCr(9, 10), Err(CombError::NLessThanR));
}

#[test]
fn npr_refuses_n_less_than_r() {
    let comb = Comb::new(1000000007, 5).unwrap();
    assert_eq!(comb.nPr(2, 5), Err(CombError::NLessThanR));
    assert_eq!(comb.nPr(9, 10), Err(CombError::NLessThanR));
}

#[test]
fn refuses_n_above_the_bound() {
    let comb: Comb = Comb::new(13, 5).unwrap();
    assert_eq!(comb.nCr(10, 3), Err(CombError::NAboveMaxFact));
    assert_eq!(comb.nPr(10, 3), Err(CombError::NAboveMaxFact));
    assert_eq!(comb.nCr(6, 6), Err(CombError::NAboveMaxFact));
    assert!(comb.nCr(5, 5).is_ok());
}

#[test]
fn new_refuses_composite_modulus() {
    assert_eq!(Comb::new(4, 14).err(), Some(CombError::NotPrime));
    assert_eq!(Comb::new(0, 3).err(), Some(CombError::NotPrime));
    assert_eq!(Comb::new(1, 0).err(), Some(CombError::NotPrime));
    assert_eq!(Comb::new(1000000007 * 3, 2).err(), Some(CombError::NotPrime));
}

#[test]
fn new_refuses_bound_that_reaches_the_modulus() {
    assert_eq!(Comb::new(7, 7).err(), Some(CombError::Inverse(ModInvError::ZeroInput)));
    assert_eq!(Comb::new(7, 20).err(), Some(CombError::Inverse(ModInvError::ZeroInput)));
    assert_eq!(Comb::new(2, 2).err(), Some(CombError::Inverse(ModInvError::ZeroInput)));
    assert!(Comb::new(7, 6).is_ok());
    assert!(Comb::new(2, 0).is_ok());
}

#[test]
fn ncr_is_symmetric() {
    let moduli: [u64; 4] = [31, 101, 1000000007, 998244353];
    for &p in moduli.iter() {
        let comb = Comb::new(p, 30).unwrap();
        for n in 0..=30u64 {
            for r in 0..=n {
                assert_eq!(comb.nCr(n, r), comb.nCr(n, n - r));
            }
        }
    }
}

#[test]
fn ncr_follows_pascal() {
    let p: u64 = 1000000007;
    let comb = Comb::new(p, 60).unwrap();
    for n in 1..=60u64 {
        assert_eq!(comb.nCr(n, 0).unwrap(), 1);
        assert_eq!(comb.nCr(n, n).unwrap(), 1);
        for r in 1..n {
            let sum = (comb.nCr(n - 1, r - 1).unwrap() + comb.nCr(n - 1, r).unwrap()) % p;
            assert_eq!(comb.nCr(n, r).unwrap(), sum);
        }
    }
    // C(60, 30) = 118264581564861424.
    assert_eq!(comb.nCr(60, 30).unwrap(), 118264581564861424 % p);
}

#[test]
fn npr_is_the_quotient_of_factorials() {
    let p: u64 = 1000000007;
    let comb = Comb::new(p, 20).unwrap();
    let mut fact: Vec<u64> = vec![1];
    for i in 1..=20u64 {
        let last = fact[fact.len() - 1];
        fact.push(last * i);
    }
    for n in 0..=20usize {
        for r in 0..=n {
            let q = fact[n] / fact[r];
            assert_eq!(comb.nPr(n as u64, r as u64).unwrap(), q % p);
        }
    }
}

#[test]
fn check_prime_values() {
    assert!(!Comb::check_prime(0));
    assert!(!Comb::check_prime(1));
    assert!(Comb::check_prime(2));
    assert!(Comb::check_prime(3));
    assert!(!Comb::check_prime(4));
    assert!(!Comb::check_prime(9));
    assert!(!Comb::check_prime(25));
    assert!(Comb::check_prime(1000000007));
    assert!(!Comb::check_prime(346789));
    assert!(!Comb::check_prime(1000003 * 1000003));
    assert!(!Comb::check_prime(u64::MAX));
    assert!(!Comb::check_prime(u64::MAX - 1));
}

#[test]
pub fn test_spf() {
    let spf: Spf = Spf::new(10000000);
    assert_eq!(spf.get_spf(7).unwrap(), 7);
    assert_eq!(spf.get_spf(25).unwrap(), 5);
    assert_eq!(spf.get_spf(2491).unwrap(), 47);
    assert_eq!(spf.get_spf(10000000).unwrap(), 2);
    assert_eq!(spf.get_spf(81).unwrap(), 3);
}

#[test]
fn test_get_factors_via_spf() {
    let spf: Spf = Spf::new(10000000);
    assert_eq!(spf.factorize(1000429).unwrap(), vec![1000429]);
    assert_eq!(spf.factorize(24).unwrap(), vec![2, 2, 2, 3]);
    assert_eq!(spf.factorize(45).unwrap(), vec![3, 3, 5]);
    assert_eq!(spf.factorize(346789).unwrap(), vec![239, 1451]);
}

#[test]
fn spf_factorize_refuses_above_limit() {
    let spf: Spf = Spf::new(15);
    assert_eq!(spf.factorize(16), Err(SpfError::AboveLimit));
    assert_eq!(spf.factorize(u64::MAX), Err(SpfError::AboveLimit));
    assert_eq!(spf.factorize(15), Ok(vec![3, 5]));
}

#[test]
fn spf_refuses_above_limit() {
    let spf: Spf = Spf::new(15);
    assert_eq!(spf.get_spf(16), Err(SpfError::AboveLimit));
    assert_eq!(spf.get_spf(u64::MAX), Err(SpfError::AboveLimit));
    assert_eq!(spf.get_spf(15), Ok(3));
}

#[test]
fn spf_of_zero_and_one() {
    let spf: Spf = Spf::new(15);
    assert_eq!(spf.get_spf(0), Ok(0));
    assert_eq!(spf.get_spf(1), Ok(0));
    assert_eq!(spf.factorize(0), Err(SpfError::Zero));
    assert_eq!(spf.factorize(1), Ok(vec![]));
}

#[test]
fn spf_tiny_tables() {
    let spf: Spf = Spf::new(0);
    assert_eq!(spf.get_spf(0), Ok(0));
    assert_eq!(spf.get_spf(1), Err(SpfError::AboveLimit));
    assert_eq!(spf.factorize(0), Err(SpfError::Zero));
    let spf: Spf = Spf::new(1);
    assert_eq!(spf.get_spf(1), Ok(0));
    assert_eq!(spf.factorize(1), Ok(vec![]));
    let spf: Spf = Spf::new(2);
    assert_eq!(spf.get_spf(2), Ok(2));
    assert_eq!(spf.factorize(2), Ok(vec![2]));
}

#[test]
fn spf_is_the_smallest_divisor() {
    let limit: u64 = 5000;
    let spf: Spf = Spf::new(limit as usize);
    for x in 2..=limit {
        let mut d: u64 = 2;
        while x % d != 0 {
            d += 1;
        }
        assert_eq!(spf.get_spf(x), Ok(d));
    }
}

#[test]
fn spf_factorize_agrees_with_factor() {
    let spf: Spf = Spf::new(20000);
    for x in 1..=20000u64 {
        assert_eq!(spf.factorize(x).unwrap(), math_comb::pollard::factor(x));
    }
}
