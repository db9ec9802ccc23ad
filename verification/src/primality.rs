//! The strong-probable-prime test as a mathematical predicate, and the proof
//! that every prime passes it.

use vstd::prelude::*;
use vstd::arithmetic::power::{pow, lemma_pow_adds};
use vstd::arithmetic::power2::{pow2, lemma_pow2_unfold, lemma2_to64};
use vstd::arithmetic::div_mod::{lemma_mod_bound, lemma_mod_twice};
use crate::numbers::{prime, lemma_mul_congruent};
use crate::fermat::{lemma_fermat_little, lemma_square_roots_of_one};

verus! {

/// The bases against which the oracle tests a candidate, in order.
pub open spec fn witnesses() -> Seq<nat> {
    seq![2, 325, 9375, 28178, 450775, 9780504, 1795265022]
}

/// The largest odd divisor of `m` (and 0 for 0).
pub open spec fn odd_part(m: nat) -> nat
    decreases m,
{
    if m == 0 || m % 2 == 1 {
        m
    } else {
        odd_part(m / 2)
    }
}

/// How many times 2 divides `m` (and 0 for 0).
pub open spec fn two_adicity(m: nat) -> nat
    decreases m,
{
    if m == 0 || m % 2 == 1 {
        0
    } else {
        1 + two_adicity(m / 2)
    }
}

/// `n` is a strong probable prime to base `a`: with `n - 1 = d * 2^s` and `d`
/// odd, either `n` divides `a`, or `a^d` is 1 modulo `n`, or one of
/// `a^d, a^(2d), ..., a^(2^(s-1) d)` is -1 modulo `n`.
pub open spec fn strong_probable_prime(n: nat, a: nat) -> bool
    recommends
        n >= 2,
{
    let d = odd_part((n - 1) as nat);
    let s = two_adicity((n - 1) as nat);
    ||| a % n == 0
    ||| pow(a as int, d) % (n as int) == 1
    ||| exists|r: nat| r < s && #[trigger] pow(a as int, d * pow2(r)) % (n as int) == n - 1
}

/// What the primality oracle answers: 2 and 3 pass, other multiples of 2 or 3
/// and everything below 2 fail, and any other number passes exactly if it is a
/// strong probable prime to every base of `witnesses`.
pub open spec fn passes_oracle(n: nat) -> bool {
    if n < 2 {
        false
    } else if n % 2 == 0 {
        n == 2
    } else if n % 3 == 0 {
        n == 3
    } else {
        forall|i: int| 0 <= i < witnesses().len() ==> strong_probable_prime(n, #[trigger] witnesses()[i])
    }
}

/// A positive number is its odd part times a power of two.
pub proof fn lemma_odd_part_decomposition(m: nat)
    requires
        m > 0,
    ensures
        m == odd_part(m) * pow2(two_adicity(m)),
        odd_part(m) % 2 == 1,
    decreases m,
{
    if m % 2 == 1 {
        lemma2_to64();
        assert(m * 1 == m);
    } else {
        let h: nat = m / 2;
        let t: nat = two_adicity(h);
        lemma_odd_part_decomposition(h);
        lemma_pow2_unfold((t + 1) as nat);
        assert(two_adicity(m) == t + 1);
        assert(pow2((t + 1) as nat) == 2 * pow2(t));
        assert(odd_part(h) * (2 * pow2(t)) == 2 * (odd_part(h) * pow2(t))) by (nonlinear_arith);
    }
}

/// Squaring a power modulo `n` doubles the exponent.
pub proof fn lemma_square_step(a: nat, k: nat, n: nat, p: nat)
    requires
        n > 0,
        p == pow(a as int, k) % (n as int),
    ensures
        (p * p) % n == pow(a as int, 2 * k) % (n as int),
{
    lemma_pow_adds(a as int, k, k);
    lemma_mod_twice(pow(a as int, k), n as int);
    lemma_mul_congruent(p as int, pow(a as int, k), p as int, pow(a as int, k), n as int);
}

/// Modulo a prime `n`, if `a^(d * 2^r)` is 1 then either `a^d` is 1 or one of
/// the squarings before the `r`-th gave -1.
proof fn lemma_descent(n: nat, a: nat, d: nat, r: nat)
    requires
        prime(n),
        pow(a as int, d * pow2(r)) % (n as int) == 1,
    ensures
        pow(a as int, d) % (n as int) == 1 || exists|j: nat|
            j < r && #[trigger] pow(a as int, d * pow2(j)) % (n as int) == n - 1,
    decreases r,
{
    if r == 0 {
        lemma2_to64();
        assert(d * 1 == d);
    } else {
        let h: nat = (r - 1) as nat;
        let k: nat = d * pow2(h);
        let x: int = pow(a as int, k) % (n as int);
        lemma_mod_bound(pow(a as int, k), n as int);
        lemma_pow2_unfold(r);
        assert(d * (2 * pow2(h)) == 2 * k) by (nonlinear_arith)
            requires
                k == d * pow2(h),
        ;
        lemma_square_step(a, k, n, x as nat);
        assert((x * x) % (n as int) == 1);
        lemma_square_roots_of_one(n, x as nat);
        if x == 1 {
            lemma_descent(n, a, d, h);
        } else {
            assert(h < r && pow(a as int, d * pow2(h)) % (n as int) == n - 1);
        }
    }
}

/// An odd prime is a strong probable prime to every base.
pub proof fn lemma_prime_is_strong_probable_prime(n: nat, a: nat)
    requires
        prime(n),
        n >= 3,
    ensures
        strong_probable_prime(n, a),
{
    if a % n != 0 {
        let m: nat = (n - 1) as nat;
        lemma_odd_part_decomposition(m);
        lemma_fermat_little(n, a);
        lemma_descent(n, a, odd_part(m), two_adicity(m));
    }
}

/// Every prime passes the oracle.
pub proof fn lemma_prime_passes_oracle(n: nat)
    requires
        prime(n),
    ensures
        passes_oracle(n),
{
    if n % 2 == 0 {
        if n != 2 {
            assert(1 < 2 < n && n % 2 == 0);
        }
    } else if n % 3 == 0 {
        if n != 3 {
            assert(1 < 3 < n && n % 3 == 0);
        }
    } else {
        assert forall|i: int| 0 <= i < witnesses().len() implies strong_probable_prime(
            n,
            #[trigger] witnesses()[i],
        ) by {
            lemma_prime_is_strong_probable_prime(n, witnesses()[i]);
        }
    }
}

} // verus!
