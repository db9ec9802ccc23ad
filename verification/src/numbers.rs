//! The arithmetic vocabulary of the crate: divisibility, primality and the
//! greatest common divisor as mathematical notions, with the elementary facts
//! that the algorithms rest on.

use vstd::prelude::*;
use vstd::arithmetic::div_mod::{
    lemma_fundamental_div_mod, lemma_mod_multiples_vanish, lemma_small_mod,
    lemma_mod_multiples_basic, lemma_mul_mod_noop_general, lemma_mod_self_0,
};

verus! {

/// `d` divides `n`. Zero divides only zero.
pub open spec fn divides(d: nat, n: nat) -> bool {
    if d == 0 {
        n == 0
    } else {
        n % d == 0
    }
}

/// `n` is a prime number: at least 2 and without a divisor strictly between
/// 1 and itself.
pub open spec fn prime(n: nat) -> bool {
    n >= 2 && forall|d: nat| 1 < d < n ==> #[trigger] (n % d) != 0
}

/// `n` is composite: it has a divisor strictly between 1 and itself.
pub open spec fn composite(n: nat) -> bool {
    exists|d: nat| 1 < d < n && #[trigger] (n % d) == 0
}

/// `d` is a nontrivial divisor of `n`.
pub open spec fn nontrivial_divisor(d: nat, n: nat) -> bool {
    1 < d < n && n % d == 0
}

/// `g` is the greatest common divisor of `a` and `b`: a common divisor that
/// every common divisor divides.
pub open spec fn is_gcd(a: nat, b: nat, g: nat) -> bool {
    &&& divides(g, a)
    &&& divides(g, b)
    &&& forall|d: nat| divides(d, a) && divides(d, b) ==> #[trigger] divides(d, g)
}

/// The product of the elements of `s`; 1 for the empty sequence.
pub open spec fn product(s: Seq<u64>) -> nat
    decreases s.len(),
{
    if s.len() == 0 {
        1
    } else {
        product(s.drop_last()) * (s.last() as nat)
    }
}

/// The elements of `s` never decrease from left to right.
pub open spec fn ascending(s: Seq<u64>) -> bool {
    forall|i: int, j: int| 0 <= i <= j < s.len() ==> s[i] <= s[j]
}

/// Appending an element multiplies the product by it.
pub proof fn lemma_product_push(s: Seq<u64>, x: u64)
    ensures
        product(s.push(x)) == product(s) * (x as nat),
{
    assert(s.push(x).drop_last() =~= s);
}

/// Congruent factors give congruent products.
pub proof fn lemma_mul_congruent(a: int, a2: int, b: int, b2: int, m: int)
    requires
        m > 0,
        a % m == a2 % m,
        b % m == b2 % m,
    ensures
        (a * b) % m == (a2 * b2) % m,
{
    lemma_mul_mod_noop_general(a, b, m);
    lemma_mul_mod_noop_general(a2, b2, m);
}

/// A number of at least 2 is either prime or composite.
pub proof fn lemma_prime_or_composite(n: nat)
    requires
        n >= 2,
    ensures
        prime(n) <==> !composite(n),
{
    if !prime(n) {
        let d = choose|d: nat| 1 < d < n && #[trigger] (n % d) == 0;
        assert(1 < d < n && n % d == 0);
    }
    if composite(n) {
        let d = choose|d: nat| 1 < d < n && #[trigger] (n % d) == 0;
        assert(n % d == 0);
    }
}

/// A multiple of `d` leaves no remainder on division by `d`.
pub proof fn lemma_multiple_divides(d: nat, k: nat)
    ensures
        divides(d, k * d),
        divides(d, d * k),
{
    if d > 0 {
        lemma_mod_multiples_basic(k as int, d as int);
        assert(k * d == d * k) by (nonlinear_arith);
    } else {
        assert(k * d == 0) by (nonlinear_arith)
            requires
                d == 0,
        ;
        assert(d * k == 0) by (nonlinear_arith)
            requires
                d == 0,
        ;
    }
}

/// What `d` divides is `d` times the quotient.
pub proof fn lemma_divides_quotient(d: nat, n: nat)
    requires
        d > 0,
        divides(d, n),
    ensures
        n == d * (n / d),
        n == (n / d) * d,
{
    lemma_fundamental_div_mod(n as int, d as int);
    assert(d * (n / d) == (n / d) * d) by (nonlinear_arith);
}

/// Adding a multiple of something that `d` divides does not change the
/// remainder on division by `d`.
pub proof fn lemma_mod_plus_multiple(d: nat, x: int, y: nat, q: int)
    requires
        d > 0,
        divides(d, y),
    ensures
        (x + q * y) % (d as int) == x % (d as int),
{
    lemma_divides_quotient(d, y);
    let t: int = (y / d) as int;
    assert(q * y == d * (q * t)) by (nonlinear_arith)
        requires
            y == d * t,
    ;
    lemma_mod_multiples_vanish(q * t, x, d as int);
}

/// A divisor of a positive number is positive and no larger than it.
pub proof fn lemma_divisor_bounds(d: nat, n: nat)
    requires
        n > 0,
        divides(d, n),
    ensures
        1 <= d <= n,
{
    if d > n {
        lemma_small_mod(n, d);
    }
}

/// Divisibility is transitive.
pub proof fn lemma_divides_transitive(a: nat, b: nat, c: nat)
    requires
        divides(a, b),
        divides(b, c),
    ensures
        divides(a, c),
{
    if b == 0 {
    } else if a == 0 {
    } else {
        lemma_divides_quotient(b, c);
        lemma_mod_plus_multiple(a, 0, b, (c / b) as int);
        assert(0 + ((c / b) as int) * b == c as int);
        lemma_small_mod(0, a);
    }
}

/// `a` and `b` have no common divisor but 1.
pub open spec fn coprime(a: nat, b: nat) -> bool {
    is_gcd(a, b, 1)
}

/// Exactly the multiples of a prime fail to be coprime to it.
pub proof fn lemma_coprime_to_prime(x: nat, p: nat)
    requires
        prime(p),
    ensures
        coprime(x, p) <==> x % p != 0,
{
    if x % p != 0 {
        assert(divides(1, x));
        assert(divides(1, p));
        assert forall|d: nat| divides(d, x) && divides(d, p) implies #[trigger] divides(d, 1) by {
            lemma_divisor_bounds(d, p);
            if 1 < d < p {
                assert(p % d != 0);
            }
        }
    } else {
        if coprime(x, p) {
            assert(divides(p, p)) by {
                lemma_mod_self_0(p as int);
            }
            assert(divides(p, x));
            assert(divides(p, 1));
            lemma_divisor_bounds(p, 1);
        }
    }
}

/// The greatest common divisor is unique.
pub proof fn lemma_gcd_unique(a: nat, b: nat, g: nat, h: nat)
    requires
        is_gcd(a, b, g),
        is_gcd(a, b, h),
    ensures
        g == h,
{
    assert(divides(g, h));
    assert(divides(h, g));
    if g == 0 || h == 0 {
    } else {
        lemma_divisor_bounds(g, h);
        lemma_divisor_bounds(h, g);
    }
}

/// One step of Euclid's algorithm keeps the greatest common divisor.
pub proof fn lemma_gcd_step(a: nat, b: nat, g: nat)
    requires
        b > 0,
        is_gcd(b, a % b, g),
    ensures
        is_gcd(a, b, g),
{
    let r: nat = a % b;
    lemma_fundamental_div_mod(a as int, b as int);
    let q: int = (a / b) as int;
    assert(a as int == r + q * b) by (nonlinear_arith)
        requires
            a as int == b * q + r,
    ;
    lemma_divisor_bounds(g, b);
    lemma_mod_plus_multiple(g, r as int, b, q);
    assert(divides(g, a));
    assert forall|d: nat| divides(d, a) && divides(d, b) implies #[trigger] divides(d, g) by {
        lemma_divisor_bounds(d, b);
        lemma_mod_plus_multiple(d, r as int, b, q);
        assert(divides(d, r));
    }
}

} // verus!
