//! Modular exponentiation, modular inverse and the greatest common divisor.

use vstd::prelude::*;
use vstd::arithmetic::power::{
    pow, lemma_pow0, lemma_pow1, lemma_pow_adds, lemma_pow_multiplies, lemma_pow_mod_noop,
};
use vstd::arithmetic::div_mod::{lemma_small_mod, lemma_mod_twice, lemma_mod_bound};

use crate::numbers::{
    is_gcd, coprime, prime, lemma_gcd_step, lemma_gcd_unique, lemma_coprime_to_prime,
    lemma_mul_congruent,
};
use crate::fermat::lemma_fermat_little;

verus! {

/// What `mod_exp` computes: `base` to the power `exponent`, reduced modulo
/// `modulus`, with the convention that the zeroth power is 1 whatever the
/// modulus is.
pub open spec fn mod_pow(base: nat, exponent: nat, modulus: nat) -> nat {
    if exponent == 0 {
        1
    } else {
        (pow(base as int, exponent) % (modulus as int)) as nat
    }
}

/// A square raised to a power is the base raised to twice that power.
pub proof fn lemma_pow_of_square(b: int, q: nat)
    ensures
        pow(b * b, q) == pow(b, 2 * q),
{
    lemma_pow_multiplies(b, 2, q);
    lemma_pow1(b);
    lemma_pow_adds(b, 1, 1);
}

/// The product of two 64-bit values fits in 128 bits.
pub proof fn lemma_product_fits(a: u64, b: u64)
    ensures
        (a as int) * (b as int) <= 0xffff_ffff_ffff_ffff * 0xffff_ffff_ffff_ffff,
        (a as int) * (b as int) < 0x1_0000_0000_0000_0000_0000_0000_0000_0000,
        (a as int) * (b as int) >= 0,
{
    assert((a as int) * (b as int) <= 0xffff_ffff_ffff_ffff * 0xffff_ffff_ffff_ffff) by (nonlinear_arith)
        requires
            0 <= a as int <= 0xffff_ffff_ffff_ffff,
            0 <= b as int <= 0xffff_ffff_ffff_ffff,
    ;
    assert((a as int) * (b as int) >= 0) by (nonlinear_arith)
        requires
            0 <= a as int,
            0 <= b as int,
    ;
}

/// Calculates `base` to the power `exponent` modulo `modulus` by repeated
/// squaring.
pub fn mod_exp(base: u64, exponent: u64, modulus: u64) -> (r: u64)
    requires
        modulus >= 1,
    ensures
        r == mod_pow(base as nat, exponent as nat, modulus as nat),
        exponent == 0 ==> r == 1,
        exponent > 0 || modulus > 1 ==> r < modulus,
{
    let mut retval: u64 = 1;
    let mut exp: u64 = exponent;
    let mut b: u64 = base % modulus;
    let ghost m: int = modulus as int;
    let ghost multiplied: bool = false;
    proof {
        lemma_pow_mod_noop(base as int, exponent as nat, m);
        lemma_mul_congruent(1, 1, pow(b as int, exponent as nat), pow(base as int, exponent as nat), m);
    }
    while exp > 0
        invariant
            m == modulus as int,
            m >= 1,
            b < modulus,
            multiplied ==> retval < modulus,
            !multiplied ==> retval == 1,
            !multiplied ==> exp > 0 || exponent == 0,
            multiplied ==> exponent > 0,
            exp <= exponent,
            (retval as int * pow(b as int, exp as nat)) % m == pow(base as int, exponent as nat) % m,
        decreases exp,
    {
        let ghost old_ret: int = retval as int;
        let ghost old_b: int = b as int;
        let ghost old_exp: nat = exp as nat;
        let odd: bool = exp % 2 == 1;
        if odd {
            proof {
                lemma_product_fits(retval, b);
            }
            retval = ((retval as u128) * (b as u128) % (modulus as u128)) as u64;
            proof {
                multiplied = true;
            }
        }
        exp = exp / 2;
        proof {
            lemma_product_fits(b, b);
        }
        b = ((b as u128) * (b as u128) % (modulus as u128)) as u64;
        proof {
            let q: nat = exp as nat;
            // pow(old_b, old_exp) == pow(old_b * old_b, q) * (old_b if odd)
            lemma_pow_of_square(old_b, q);
            lemma_pow_mod_noop(old_b * old_b, q, m);
            assert(b as int == (old_b * old_b) % m);
            assert(pow(b as int, q) % m == pow(old_b, 2 * q) % m);
            if odd {
                assert(old_exp == 2 * q + 1);
                lemma_pow_adds(old_b, 1, 2 * q);
                lemma_pow1(old_b);
                assert(pow(old_b, old_exp) == old_b * pow(old_b, 2 * q));
                assert(retval as int == (old_ret * old_b) % m);
                lemma_small_mod(retval as nat, m as nat);
                lemma_mod_twice(old_ret * old_b, m);
                lemma_mul_congruent(retval as int, old_ret * old_b, pow(b as int, q), pow(old_b, 2 * q), m);
                assert((old_ret * old_b) * pow(old_b, 2 * q) == old_ret * (old_b * pow(old_b, 2 * q)))
                    by (nonlinear_arith);
            } else {
                assert(old_exp == 2 * q);
                lemma_mul_congruent(old_ret, old_ret, pow(b as int, q), pow(old_b, 2 * q), m);
            }
        }
    }
    proof {
        lemma_pow0(b as int);
        if exponent > 0 {
            lemma_small_mod(retval as nat, m as nat);
        }
    }
    retval
}

/// The greatest common divisor of `a` and `b`, by Euclid's algorithm.
pub fn gcd(a: u64, b: u64) -> (g: u64)
    ensures
        is_gcd(a as nat, b as nat, g as nat),
    decreases b,
{
    if b == 0 {
        a
    } else {
        let g: u64 = gcd(b, a % b);
        proof {
            lemma_gcd_step(a as nat, b as nat, g as nat);
        }
        g
    }
}

/// Why a modular inverse was refused.
#[derive(Debug, Clone, Copy, PartialEq, Eq, Structural)]
pub enum ModInvError {
    /// The modulus is zero.
    InvalidModulus,
    /// The number to invert is zero.
    ZeroInput,
    /// The number and the modulus have a common divisor above 1.
    NotCoprime,
}

/// The candidate inverse of `x` modulo `modulus`: `x` to the power
/// `modulus - 2`, reduced. Modulo 1 it is 0, the only residue there is.
pub open spec fn inverse_candidate(x: nat, modulus: nat) -> nat {
    if modulus <= 1 {
        0
    } else {
        mod_pow(x, (modulus - 2) as nat, modulus)
    }
}

/// Modulo a prime, the candidate inverse of a number that the prime does not
/// divide is its inverse.
pub proof fn lemma_inverse_candidate_inverts(x: nat, p: nat)
    requires
        prime(p),
        x % p != 0,
    ensures
        (x * inverse_candidate(x, p)) % p == 1,
        inverse_candidate(x, p) < p,
{
    if p == 2 {
        assert(x * 1 == x);
    } else {
        let e: nat = (p - 2) as nat;
        lemma_fermat_little(p, x);
        lemma_pow1(x as int);
        lemma_pow_adds(x as int, 1, e);
        lemma_mod_twice(pow(x as int, e), p as int);
        lemma_mul_congruent(x as int, x as int, pow(x as int, e) % (p as int), pow(x as int, e), p as int);
        lemma_mod_bound(pow(x as int, e), p as int);
    }
}

/// Calculates the inverse of `x` modulo `modulus` as `x` to the power
/// `modulus - 2`, which is the inverse whenever `modulus` is prime.
///
/// A zero modulus, a zero `x`, and an `x` that shares a divisor with the
/// modulus are refused, in this order.
pub fn mod_inv(x: u64, modulus: u64) -> (r: Result<u64, ModInvError>)
    ensures
        modulus == 0 ==> r == Err::<u64, ModInvError>(ModInvError::InvalidModulus),
        modulus != 0 && x == 0 ==> r == Err::<u64, ModInvError>(ModInvError::ZeroInput),
        modulus != 0 && x != 0 && !coprime(x as nat, modulus as nat) ==> r == Err::<u64, ModInvError>(
            ModInvError::NotCoprime,
        ),
        modulus != 0 && x != 0 && coprime(x as nat, modulus as nat) ==> (r matches Ok(y) && y
            == inverse_candidate(x as nat, modulus as nat)),
        prime(modulus as nat) ==> (r matches Ok(y) ==> y < modulus && (x as nat * y as nat) % (
        modulus as nat) == 1),
{
    if modulus == 0 {
        return Err(ModInvError::InvalidModulus);
    }
    if x == 0 {
        return Err(ModInvError::ZeroInput);
    }
    let g: u64 = gcd(x, modulus);
    if g != 1 {
        proof {
            if coprime(x as nat, modulus as nat) {
                lemma_gcd_unique(x as nat, modulus as nat, g as nat, 1);
            }
        }
        return Err(ModInvError::NotCoprime);
    }
    proof {
        if prime(modulus as nat) {
            lemma_coprime_to_prime(x as nat, modulus as nat);
            lemma_inverse_candidate_inverts(x as nat, modulus as nat);
        }
    }
    if modulus == 1 {
        return Ok(0);
    }
    Ok(mod_exp(x, modulus - 2, modulus))
}

} // verus!
