use math_comb::modexp::{gcd, mod_exp, mod_inv};
use math_comb::{ModInvError, Modexp};

#[test]
fn test_mod_exp() {
    assert_eq!(mod_exp(2, 10, 1000000007), 1024);
    assert_eq!(mod_exp(3, 5, 1000000007), 243);
    assert_eq!(mod_exp(5, 3, 1000000007), 125);
    assert_eq!(mod_exp(10, 0, 1000000007), 1);
    assert_eq!(mod_exp(1255, 623, 1000000007), 152493811);
    assert_eq!(mod_exp(2, 10, 5), 4);
    assert_eq!(mod_exp(3, 5, 7), 5);
    assert_eq!(mod_exp(10, 0, 100), 1);
}

#[test]
fn test_mod_inv() {
    assert_eq!(mod_inv(3, 11).unwrap(), 4);
    assert_eq!(mod_inv(7, 13).unwrap(), 2);
    assert_eq!(mod_inv(5, 7).unwrap(), 3);
}

#[test]
fn mod_inv_refuses_not_coprime() {
    assert_eq!(mod_inv(8, 12), Err(ModInvError::NotCoprime));
    assert_eq!(mod_inv(22, 11), Err(ModInvError::NotCoprime));
}

#[test]
fn mod_inv_refuses_zero_modulus() {
    assert_eq!(mod_inv(8, 0), Err(ModInvError::InvalidModulus));
    assert_eq!(mod_inv(0, 0), Err(ModInvError::InvalidModulus));
}

#[test]
fn mod_inv_refuses_zero_input() {
    assert_eq!(mod_inv(0, 12), Err(ModInvError::ZeroInput));
    assert_eq!(mod_inv(0, 13), Err(ModInvError::ZeroInput));
}

#[test]
fn mod_exp_zero_exponent_is_one() {
    assert_eq!(mod_exp(0, 0, 1000000007), 1);
    assert_eq!(mod_exp(0, 0, 1), 1);
    assert_eq!(mod_exp(17, 0, 1), 1);
    assert_eq!(mod_exp(u64::MAX, 0, u64::MAX), 1);
}

#[test]
fn mod_exp_stays_below_modulus() {
    let moduli: [u64; 6] = [1, 2, 7, 1000, 1000000007, u64::MAX];
    let bases: [u64; 5] = [0, 1, 2, 123456789, u64::MAX];
    let exponents: [u64; 5] = [1, 2, 3, 64, u64::MAX];
    for &m in moduli.iter() {
        for &b in bases.iter() {
            for &e in exponents.iter() {
                assert!(mod_exp(b, e, m) < m);
            }
        }
    }
}

#[test]
fn mod_exp_modulus_one() {
    assert_eq!(mod_exp(5, 3, 1), 0);
    assert_eq!(mod_exp(0, 1, 1), 0);
}

#[test]
fn mod_exp_zero_base() {
    assert_eq!(mod_exp(0, 5, 7), 0);
    assert_eq!(mod_exp(14, 3, 7), 0);
}

#[test]
fn mod_exp_wide_operands() {
    // 2^64 = 1 modulo 2^64 - 1.
    assert_eq!(mod_exp(2, 64, u64::MAX), 1);
    // Fermat, with the largest prime below 2^64.
    let p: u64 = 18446744073709551557;
    assert_eq!(mod_exp(3, p - 1, p), 1);
    assert_eq!(mod_exp(p - 1, 2, p), 1);
    assert_eq!(mod_exp(p - 1, 3, p), p - 1);
}

#[test]
fn mod_inv_inverts_modulo_primes() {
    let primes: [u64; 5] = [2, 3, 11, 1000000007, 18446744073709551557];
    for &p in primes.iter() {
        let xs: [u64; 6] = [1, 2, 3, 10, p - 1, p + 1];
        for &x in xs.iter() {
            if x % p == 0 {
                continue;
            }
            let y = mod_inv(x, p).unwrap();
            assert!(y < p);
            let prod = (x as u128 % p as u128) * (y as u128) % (p as u128);
            assert_eq!(prod, 1);
        }
    }
}

#[test]
fn mod_inv_modulus_one_and_two() {
    assert_eq!(mod_inv(5, 1), Ok(0));
    assert_eq!(mod_inv(1, 2), Ok(1));
    assert_eq!(mod_inv(7, 2), Ok(1));
}

#[test]
fn mod_inv_composite_modulus_is_the_power() {
    // 3^(8 - 2) mod 8 = 729 mod 8 = 1, which is not an inverse of 3.
    assert_eq!(mod_inv(3, 8), Ok(1));
    // 2^(9 - 2) mod 9 = 128 mod 9 = 2.
    assert_eq!(mod_inv(2, 9), Ok(2));
}

#[test]
fn gcd_values() {
    assert_eq!(gcd(0, 0), 0);
    assert_eq!(gcd(12, 0), 12);
    assert_eq!(gcd(0, 12), 12);
    assert_eq!(gcd(12, 18), 6);
    assert_eq!(gcd(18, 12), 6);
    assert_eq!(gcd(17, 5), 1);
    assert_eq!(gcd(u64::MAX, u64::MAX - 1), 1);
    assert_eq!(gcd(1 << 40, 1 << 20), 1 << 20);
}

#[test]
fn modexp_facade_agrees() {
    assert_eq!(Modexp::mod_exp(2, 10, 1000000007), 1024);
    assert_eq!(Modexp::mod_inv(3, 11), Ok(4));
    assert_eq!(Modexp::mod_inv(8, 12), Err(ModInvError::NotCoprime));
    assert_eq!(Modexp::mod_inv(8, 0), Err(ModInvError::InvalidModulus));
    assert_eq!(Modexp::mod_inv(0, 12), Err(ModInvError::ZeroInput));
}
