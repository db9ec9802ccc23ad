//! Binomial coefficients and factorial quotients modulo a prime, from tables
//! of factorials and of their inverses.

use vstd::prelude::*;
use vstd::arithmetic::div_mod::{
    lemma_fundamental_div_mod, lemma_fundamental_div_mod_converse, lemma_small_mod,
    lemma_mod_multiples_basic, lemma_mod_twice, lemma_mod_bound,
};
use crate::numbers::{prime, lemma_coprime_to_prime, lemma_mul_congruent};
use crate::fermat::{factorial, lemma_factorial_coprime};
use crate::modexp::{mod_inv, ModInvError};
use crate::pollard::modmul;

verus! {

/// The binomial coefficient: in how many ways `r` items can be chosen from
/// `n`, by Pascal's rule.
pub open spec fn binomial(n: nat, r: nat) -> nat
    decreases n,
{
    if r == 0 {
        1
    } else if n == 0 {
        0
    } else {
        binomial((n - 1) as nat, (r - 1) as nat) + binomial((n - 1) as nat, r)
    }
}

/// The product `(r + 1) * (r + 2) * ... * n`.
pub open spec fn rising_product(n: nat, r: nat) -> nat
    decreases n,
{
    if n <= r {
        1
    } else {
        n * rising_product((n - 1) as nat, r)
    }
}

/// A factorial is positive.
pub proof fn lemma_factorial_positive(n: nat)
    ensures
        factorial(n) > 0,
    decreases n,
{
    if n > 0 {
        lemma_factorial_positive((n - 1) as nat);
        assert(n * factorial((n - 1) as nat) > 0) by (nonlinear_arith)
            requires
                n > 0,
                factorial((n - 1) as nat) > 0,
        ;
    }
}

/// `n!` is `r!` times the product of the numbers from `r + 1` to `n`.
pub proof fn lemma_factorial_split(n: nat, r: nat)
    requires
        r <= n,
    ensures
        factorial(n) == rising_product(n, r) * factorial(r),
        factorial(n) / factorial(r) == rising_product(n, r),
        factorial(n) % factorial(r) == 0,
    decreases n,
{
    lemma_factorial_positive(r);
    if n == r {
        assert(1 * factorial(r) == factorial(r));
    } else {
        let m: nat = (n - 1) as nat;
        lemma_factorial_split(m, r);
        assert(n * (rising_product(m, r) * factorial(r)) == (n * rising_product(m, r)) * factorial(r))
            by (nonlinear_arith);
    }
    let q: int = rising_product(n, r) as int;
    let d: int = factorial(r) as int;
    assert(factorial(n) as int == q * d + 0);
    lemma_fundamental_div_mod_converse(factorial(n) as int, d, q, 0);
}

/// No item set is larger than what it is chosen from.
pub proof fn lemma_binomial_zero(n: nat, r: nat)
    requires
        n < r,
    ensures
        binomial(n, r) == 0,
    decreases n,
{
    if n > 0 {
        lemma_binomial_zero((n - 1) as nat, (r - 1) as nat);
        lemma_binomial_zero((n - 1) as nat, r);
    }
}

/// The binomial coefficient in factorials: `C(n, r) * r! * (n - r)! = n!`.
pub proof fn lemma_binomial_factorials(n: nat, r: nat)
    requires
        r <= n,
    ensures
        binomial(n, r) * factorial(r) * factorial((n - r) as nat) == factorial(n),
    decreases n,
{
    if r == 0 {
        assert(1 * 1 * factorial(n) == factorial(n));
    } else if r == n {
        let m: nat = (n - 1) as nat;
        lemma_binomial_factorials(m, m);
        lemma_binomial_zero(m, n);
        lemma_factorial_positive(m);
        let b: nat = binomial(m, m);
        assert(b == 1) by (nonlinear_arith)
            requires
                b * factorial(m) * 1 == factorial(m),
                factorial(m) > 0,
        ;
        assert(binomial(n, n) == 1);
        assert(1 * factorial(n) * 1 == factorial(n));
    } else {
        let m: nat = (n - 1) as nat;
        let a: nat = binomial(m, (r - 1) as nat);
        let b: nat = binomial(m, r);
        let fr1: nat = factorial((r - 1) as nat);
        let fk1: nat = factorial((n - r - 1) as nat);
        lemma_binomial_factorials(m, (r - 1) as nat);
        lemma_binomial_factorials(m, r);
        assert(factorial(r) == r * fr1);
        assert(factorial((n - r) as nat) == (n - r) * fk1);
        assert(a * fr1 * factorial((n - r) as nat) == factorial(m));
        assert(b * factorial(r) * fk1 == factorial(m));
        let fm: nat = factorial(m);
        let fk: nat = factorial((n - r) as nat);
        let fr: nat = factorial(r);
        assert((a + b) * fr * fk == n * fm) by (nonlinear_arith)
            requires
                a * fr1 * fk == fm,
                b * fr * fk1 == fm,
                fr == r * fr1,
                fk == (n - r) * fk1,
                r <= n,
        ;
    }
}

/// Choosing `r` of `n` items is choosing the `n - r` to leave out.
pub proof fn lemma_binomial_symmetric(n: nat, r: nat)
    requires
        r <= n,
    ensures
        binomial(n, r) == binomial(n, (n - r) as nat),
{
    let k: nat = (n - r) as nat;
    lemma_binomial_factorials(n, r);
    lemma_binomial_factorials(n, k);
    lemma_factorial_positive(r);
    lemma_factorial_positive(k);
    let x: nat = binomial(n, r);
    let y: nat = binomial(n, k);
    let fr: nat = factorial(r);
    let fk: nat = factorial(k);
    assert((n - k) as nat == r);
    assert(x == y) by (nonlinear_arith)
        requires
            x * fr * fk == y * fk * fr,
            fr > 0,
            fk > 0,
    ;
}

/// A prime divides the factorial of every number from itself on.
pub proof fn lemma_factorial_multiple(p: nat, k: nat)
    requires
        p > 0,
        k >= p,
    ensures
        factorial(k) % p == 0,
    decreases k,
{
    if k == p {
        lemma_mod_multiples_basic(factorial((k - 1) as nat) as int, p as int);
        assert(k * factorial((k - 1) as nat) == factorial((k - 1) as nat) * p) by (nonlinear_arith)
            requires
                k == p,
        ;
    } else {
        lemma_factorial_multiple(p, (k - 1) as nat);
        let f: nat = factorial((k - 1) as nat);
        lemma_fundamental_div_mod(f as int, p as int);
        let q: int = (f / p) as int;
        assert(k * f == (k * q) * p) by (nonlinear_arith)
            requires
                f as int == p * q,
        ;
        lemma_mod_multiples_basic(k * q, p as int);
    }
}

/// Why a table was not built, or a coefficient not computed.
#[derive(Debug, Clone, Copy, PartialEq, Eq, Structural)]
pub enum CombError {
    /// The modulus is not a prime.
    NotPrime,
    /// The factorial of the table's bound has no inverse.
    Inverse(ModInvError),
    /// `n` is less than `r`.
    NLessThanR,
    /// `n` is above the bound that the table was built for.
    NAboveMaxFact,
}

/// Factorials and inverse factorials modulo a prime, up to a bound.
pub struct Comb {
    mod_value: u64,
    max_fact: usize,
    fact: Vec<u64>,
    inv_fact: Vec<u64>,
}

impl Comb {
    #[verifier::type_invariant]
    spec fn well_formed(self) -> bool {
        &&& prime(self.mod_value as nat)
        &&& self.max_fact < self.mod_value
        &&& self.fact@.len() == self.max_fact + 1
        &&& self.inv_fact@.len() == self.max_fact + 1
        &&& forall|i: int|
            0 <= i <= self.max_fact ==> #[trigger] self.fact@[i] == factorial(i as nat) % (
            self.mod_value as nat)
        &&& forall|i: int|
            0 <= i <= self.max_fact ==> #[trigger] self.inv_fact@[i] < self.mod_value && (
            self.inv_fact@[i] as nat * factorial(i as nat)) % (self.mod_value as nat) == 1
    }

    /// The prime modulus of the table.
    pub closed spec fn modulus(self) -> nat {
        self.mod_value as nat
    }

    /// The largest `n` that the table serves.
    pub closed spec fn bound(self) -> nat {
        self.max_fact as nat
    }

    /// Decides whether `n` is prime, by trial division up to its square root.
    pub fn check_prime(n: u64) -> (b: bool)
        ensures
            b == prime(n as nat),
    {
        if n < 2 {
            return false;
        }
        let mut x: u64 = 2;
        while x <= n / x
            invariant
                2 <= x <= n,
                forall|e: nat| 1 < e < x ==> #[trigger] (n as nat % e) != 0,
            decreases n - x,
        {
            if n % x == 0 {
                proof {
                    lemma_fundamental_div_mod(n as int, x as int);
                    assert(x < n) by (nonlinear_arith)
                        requires
                            x >= 2,
                            n / x >= x,
                            n as int == x * (n / x) + 0,
                    ;
                    assert(1 < (x as nat) && (x as nat) < (n as nat) && (n as nat) % (x as nat) == 0);
                }
                return false;
            }
            proof {
                lemma_fundamental_div_mod(n as int, x as int);
                assert(x < n) by (nonlinear_arith)
                    requires
                        x >= 2,
                        n / x >= x,
                        n as int == x * (n / x) + n % x,
                        n % x >= 0,
                ;
            }
            x = x + 1;
        }
        proof {
            assert forall|d: nat| 1 < d < n implies #[trigger] (n as nat % d) != 0 by {
                if n as nat % d == 0 {
                    let c: nat = n as nat / d;
                    lemma_fundamental_div_mod(n as int, d as int);
                    lemma_fundamental_div_mod(n as int, x as int);
                    assert(n as int == d * c);
                    assert(1 < c) by (nonlinear_arith)
                        requires
                            n as int == d * c,
                            d < n,
                            d > 1,
                    ;
                    assert(c < x) by (nonlinear_arith)
                        requires
                            n as int == d * c,
                            d >= x,
                            n as int == x * (n / x) + n % x,
                            n % x < x,
                            n / x < x,
                            x >= 2,
                    ;
                    assert(d * c == c * d) by (nonlinear_arith);
                    lemma_mod_multiples_basic(d as int, c as int);
                    assert(n as nat % c == 0);
                }
            }
        }
        true
    }

    /// Builds the tables for the prime `mod_value`, up to `max_fact`.
    ///
    /// A modulus that is not prime is refused. So is a bound that reaches the
    /// modulus: the factorial of such a bound is zero modulo the prime and has
    /// no inverse.
    pub fn new(mod_value: u64, max_fact: usize) -> (r: Result<Comb, CombError>)
        requires
            max_fact < usize::MAX,
        ensures
            !prime(mod_value as nat) ==> (r matches Err(e) && e == CombError::NotPrime),
            prime(mod_value as nat) && max_fact >= mod_value ==> (r matches Err(e) && e
                == CombError::Inverse(ModInvError::ZeroInput)),
            prime(mod_value as nat) && max_fact < mod_value ==> (r matches Ok(c) && c.modulus()
                == mod_value && c.bound() == max_fact),
    {
        if !Self::check_prime(mod_value) {
            return Err(CombError::NotPrime);
        }
        let ghost p: nat = mod_value as nat;
        let mut fact: Vec<u64> = Vec::new();
        fact.push(1);
        proof {
            lemma_small_mod(1, p);
        }
        let mut i: usize = 1;
        while i <= max_fact
            invariant
                1 <= i <= max_fact + 1,
                max_fact < usize::MAX,
                p == mod_value as nat,
                prime(p),
                fact@.len() == i,
                forall|k: int| 0 <= k < i ==> #[trigger] fact@[k] == factorial(k as nat) % p,
            decreases max_fact + 1 - i,
        {
            let prev: u64 = fact[i - 1];
            let next: u64 = modmul(prev, i as u64, mod_value);
            proof {
                let f: nat = factorial((i - 1) as nat);
                lemma_mod_twice(f as int, p as int);
                lemma_mul_congruent(prev as int, f as int, i as int, i as int, p as int);
                assert(f * i == i * f) by (nonlinear_arith);
            }
            fact.push(next);
            i = i + 1;
        }
        let top: u64 = fact[max_fact];
        let inverse: u64 = match mod_inv(top, mod_value) {
            Ok(v) => v,
            Err(e) => {
                proof {
                    if max_fact < mod_value {
                        lemma_factorial_coprime(p, max_fact as nat);
                        lemma_mod_twice(factorial(max_fact as nat) as int, p as int);
                        lemma_coprime_to_prime(top as nat, p);
                    } else {
                        lemma_factorial_multiple(p, max_fact as nat);
                    }
                }
                return Err(CombError::Inverse(e));
            },
        };
        proof {
            if max_fact >= mod_value {
                lemma_factorial_multiple(p, max_fact as nat);
            }
            let f: nat = factorial(max_fact as nat);
            lemma_mod_twice(f as int, p as int);
            lemma_mul_congruent(inverse as int, inverse as int, top as int, f as int, p as int);
            assert(top as nat * inverse as nat == inverse as nat * top as nat) by (nonlinear_arith);
        }
        let mut inv_fact: Vec<u64> = vec![0; max_fact + 1];
        inv_fact.set(max_fact, inverse);
        let mut k: usize = max_fact;
        while k > 0
            invariant
                k <= max_fact,
                max_fact < mod_value,
                p == mod_value as nat,
                prime(p),
                inv_fact@.len() == max_fact + 1,
                forall|j: int|
                    k <= j <= max_fact ==> #[trigger] inv_fact@[j] < mod_value && (inv_fact@[j] as nat
                        * factorial(j as nat)) % p == 1,
            decreases k,
        {
            let above: u64 = inv_fact[k];
            let next: u64 = modmul(above, k as u64, mod_value);
            proof {
                let f: nat = factorial((k - 1) as nat);
                assert(factorial(k as nat) == k * f);
                lemma_mod_bound((above as nat * k as nat) as int, p as int);
                lemma_mod_twice((above as nat * k as nat) as int, p as int);
                lemma_mul_congruent(
                    next as int,
                    (above as nat * k as nat) as int,
                    f as int,
                    f as int,
                    p as int,
                );
                assert((above as nat * k as nat) * f == above as nat * (k * f)) by (nonlinear_arith);
            }
            inv_fact.set(k - 1, next);
            k = k - 1;
        }
        Ok(Comb { mod_value, max_fact, fact, inv_fact })
    }

    /// `n! / r!` modulo the table's prime, for `r <= n` within the bound.
    fn factorial_quotient(&self, n: u64, r: u64) -> (v: u64)
        requires
            r <= n <= self.bound(),
        ensures
            v == (factorial(n as nat) / factorial(r as nat)) % self.modulus(),
            v == rising_product(n as nat, r as nat) % self.modulus(),
    {
        proof {
            use_type_invariant(self);
        }
        let a: u64 = self.fact[n as usize];
        let b: u64 = self.inv_fact[r as usize];
        proof {
            let p: int = self.mod_value as int;
            let fn_: int = factorial(n as nat) as int;
            let fr: int = factorial(r as nat) as int;
            let q: int = rising_product(n as nat, r as nat) as int;
            lemma_factorial_split(n as nat, r as nat);
            lemma_mod_twice(fn_, p);
            lemma_mul_congruent(a as int, fn_, b as int, b as int, p);
            assert(fn_ * b == q * (b * fr)) by (nonlinear_arith)
                requires
                    fn_ == q * fr,
            ;
            lemma_small_mod(1, p as nat);
            lemma_mul_congruent(q, q, b * fr, 1, p);
            assert(q * 1 == q);
        }
        modmul(a, b, self.mod_value)
    }

    /// The number of ways to arrange the items that remain when `r` of `n`
    /// are set aside: `n! / r!`, modulo the table's prime.
    #[allow(non_snake_case)]
    pub fn nPr(&self, n: u64, r: u64) -> (res: Result<u64, CombError>)
        ensures
            n < r ==> res == Err::<u64, CombError>(CombError::NLessThanR),
            r <= n && n > self.bound() ==> res == Err::<u64, CombError>(CombError::NAboveMaxFact),
            r <= n <= self.bound() ==> (res matches Ok(v) && v == (factorial(n as nat) / factorial(
                r as nat,
            )) % self.modulus()),
    {
        proof {
            use_type_invariant(self);
        }
        if n < r {
            Err(CombError::NLessThanR)
        } else if n > self.max_fact as u64 {
            Err(CombError::NAboveMaxFact)
        } else {
            proof {
                lemma_mod_bound((factorial(n as nat) / factorial(r as nat)) as int, self.mod_value as int);
            }
            Ok(self.factorial_quotient(n, r))
        }
    }

    /// The binomial coefficient of `n` over `r`, modulo the table's prime.
    #[allow(non_snake_case)]
    pub fn nCr(&self, n: u64, r: u64) -> (res: Result<u64, CombError>)
        ensures
            n < r ==> res == Err::<u64, CombError>(CombError::NLessThanR),
            r <= n && n > self.bound() ==> res == Err::<u64, CombError>(CombError::NAboveMaxFact),
            r <= n <= self.bound() ==> (res matches Ok(v) && v == binomial(n as nat, r as nat)
                % self.modulus()),
    {
        proof {
            use_type_invariant(self);
        }
        if n < r {
            Err(CombError::NLessThanR)
        } else if n > self.max_fact as u64 {
            Err(CombError::NAboveMaxFact)
        } else {
            let q: u64 = self.factorial_quotient(n, r);
            let c: u64 = self.inv_fact[(n - r) as usize];
            proof {
                let p: int = self.mod_value as int;
                let k: nat = (n - r) as nat;
                let big: int = rising_product(n as nat, r as nat) as int;
                let bin: int = binomial(n as nat, r as nat) as int;
                let fr: int = factorial(r as nat) as int;
                let fk: int = factorial(k) as int;
                lemma_factorial_split(n as nat, r as nat);
                lemma_binomial_factorials(n as nat, r as nat);
                lemma_factorial_positive(r as nat);
                assert(big == bin * fk) by (nonlinear_arith)
                    requires
                        bin * fr * fk == big * fr,
                        fr > 0,
                ;
                lemma_mod_twice(big, p);
                lemma_mul_congruent(q as int, big, c as int, c as int, p);
                assert(big * c == bin * (c * fk)) by (nonlinear_arith)
                    requires
                        big == bin * fk,
                ;
                lemma_small_mod(1, p as nat);
                lemma_mul_congruent(bin, bin, c * fk, 1, p);
                assert(bin * 1 == bin);
                lemma_mod_bound(bin, p);
            }
            Ok(modmul(q, c, self.mod_value))
        }
    }
}

/// What a table gives for `n` over `r`, it gives for `n` over `n - r`.
pub proof fn lemma_ncr_symmetric(table: Comb, n: u64, r: u64)
    requires
        r <= n <= table.bound(),
    ensures
        binomial(n as nat, r as nat) % table.modulus() == binomial(n as nat, (n - r) as nat)
            % table.modulus(),
{
    lemma_binomial_symmetric(n as nat, r as nat);
}

} // verus!
