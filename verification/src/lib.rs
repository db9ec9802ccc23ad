//! Number-theory toolkit: modular arithmetic, a primality oracle, integer
//! factorization, a smallest-prime-factor sieve and binomial coefficients
//! under a prime modulus.
//!
//! Every function states what it computes over the mathematical notions of
//! `numbers` (divisibility, primes, greatest common divisors), and none of
//! them panics: what a function cannot serve it refuses with an error value,
//! or excludes by its precondition.

use vstd::prelude::*;

pub mod numbers;
pub mod fermat;
pub mod primality;
pub mod modexp;
pub mod pollard;
pub mod spf;
pub mod comb;

pub use crate::comb::{Comb, CombError};
pub use crate::modexp::ModInvError;
pub use crate::spf::{Spf, SpfError};

use crate::modexp::{inverse_candidate, mod_pow};
use crate::numbers::{ascending, composite, coprime, nontrivial_divisor, prime, product};
use crate::primality::passes_oracle;

verus! {

/// Primality testing and factorization of 64-bit numbers.
pub struct Prime {}

impl Prime {
    /// Finds a nontrivial divisor of a composite `n`.
    pub fn pollard(n: u64) -> (d: u64)
        requires
            composite(n as nat),
        ensures
            nontrivial_divisor(d as nat, n as nat),
    {
        crate::pollard::pollard(n)
    }

    /// Factorizes `n` into primes: the result is ascending, its product is
    /// `n`, and each element passes the primality oracle.
    pub fn factor(n: u64) -> (v: Vec<u64>)
        requires
            n >= 1,
        ensures
            ascending(v@),
            product(v@) == n,
            forall|k: int| 0 <= k < v@.len() ==> passes_oracle(#[trigger] v@[k] as nat),
            n == 1 ==> v@ =~= Seq::<u64>::empty(),
            prime(n as nat) ==> v@ =~= seq![n],
    {
        crate::pollard::factor(n)
    }

    /// Decides whether `n` is prime, by the strong-probable-prime test
    /// against the seven fixed bases.
    pub fn is_prime(n: u64) -> (b: bool)
        ensures
            b == passes_oracle(n as nat),
            prime(n as nat) ==> b,
    {
        crate::pollard::is_prime(n)
    }
}

/// Modular exponentiation and modular inverse.
pub struct Modexp {}

impl Modexp {
    /// Calculates `base` to the power `exponent` modulo `modulus`.
    pub fn mod_exp(base: u64, exponent: u64, modulus: u64) -> (r: u64)
        requires
            modulus >= 1,
        ensures
            r == mod_pow(base as nat, exponent as nat, modulus as nat),
            exponent == 0 ==> r == 1,
            exponent > 0 || modulus > 1 ==> r < modulus,
    {
        crate::modexp::mod_exp(base, exponent, modulus)
    }

    /// Calculates the inverse of `x` modulo `modulus` as `x` to the power
    /// `modulus - 2`, which is the inverse whenever `modulus` is prime.
    pub fn mod_inv(x: u64, modulus: u64) -> (r: Result<u64, ModInvError>)
        ensures
            modulus == 0 ==> r == Err::<u64, ModInvError>(ModInvError::InvalidModulus),
            modulus != 0 && x == 0 ==> r == Err::<u64, ModInvError>(ModInvError::ZeroInput),
            modulus != 0 && x != 0 && !coprime(x as nat, modulus as nat) ==> r == Err::<
                u64,
                ModInvError,
            >(ModInvError::NotCoprime),
            modulus != 0 && x != 0 && coprime(x as nat, modulus as nat) ==> (r matches Ok(y) && y
                == inverse_candidate(x as nat, modulus as nat)),
            prime(modulus as nat) ==> (r matches Ok(y) ==> y < modulus && (x as nat * y as nat) % (
            modulus as nat) == 1),
    {
        crate::modexp::mod_inv(x, modulus)
    }
}

} // verus!
