//! Arithmetic modulo a prime: a prime that divides a product divides a
//! factor, and Fermat's little theorem.

use vstd::prelude::*;
use vstd::arithmetic::power::{pow, lemma_pow0, lemma_pow1, lemma_pow_adds, lemma_pow_positive};
use vstd::arithmetic::div_mod::{
    lemma_fundamental_div_mod, lemma_mod_multiples_basic, lemma_small_mod, lemma_mod_equivalence,
    lemma_mul_mod_noop_right, lemma_mod_bound, lemma_mod_twice,
};
use vstd::set_lib::{set_int_range, lemma_int_range, lemma_subset_equality};
use crate::numbers::{prime, lemma_mod_plus_multiple, lemma_mul_congruent};

verus! {

/// The factorial of `n`.
pub open spec fn factorial(n: nat) -> nat
    decreases n,
{
    if n == 0 {
        1
    } else {
        n * factorial((n - 1) as nat)
    }
}

/// The product of the elements of a sequence of integers.
pub open spec fn int_product(s: Seq<int>) -> int
    decreases s.len(),
{
    if s.len() == 0 {
        1
    } else {
        int_product(s.drop_last()) * s.last()
    }
}

/// A prime `p` that does not divide `a` does not divide `a * b` for any `b`
/// strictly between 0 and `p`.
pub proof fn lemma_prime_small_factor(p: nat, a: nat, b: nat)
    requires
        prime(p),
        a % p != 0,
        0 < b < p,
    ensures
        (a * b) % p != 0,
    decreases b,
{
    if (a * b) % p == 0 {
        if b == 1 {
            assert(a * 1 == a);
        } else {
            assert(p % b != 0);
            let q: int = (p / b) as int;
            let r: nat = p % b;
            lemma_fundamental_div_mod(p as int, b as int);
            assert((a * r) as int == a * p + (-q) * (a * b)) by (nonlinear_arith)
                requires
                    p as int == b * q + r,
            ;
            lemma_mod_plus_multiple(p, (a * p) as int, a * b, -q);
            lemma_mod_multiples_basic(a as int, p as int);
            lemma_prime_small_factor(p, a, r);
        }
    }
}

/// Euclid's lemma: a prime that divides neither of two numbers does not
/// divide their product.
pub proof fn lemma_euclid(p: nat, a: nat, b: nat)
    requires
        prime(p),
        a % p != 0,
        b % p != 0,
    ensures
        (a * b) % p != 0,
{
    lemma_mul_mod_noop_right(a as int, b as int, p as int);
    lemma_prime_small_factor(p, a, b % p);
}

/// Modulo a prime, 1 has no square roots but 1 and -1.
pub proof fn lemma_square_roots_of_one(p: nat, x: nat)
    requires
        prime(p),
        x < p,
        (x * x) % p == 1,
    ensures
        x == 1 || x == p - 1,
{
    if x == 0 {
        assert(x * x == 0) by (nonlinear_arith)
            requires
                x == 0,
        ;
        lemma_small_mod(0, p);
    } else if x != 1 && x != p - 1 {
        lemma_small_mod(x + 1, p);
        lemma_prime_small_factor(p, x + 1, (x - 1) as nat);
        assert((x + 1) * ((x - 1) as nat) == x * x - 1) by (nonlinear_arith)
            requires
                x >= 1,
        ;
        lemma_small_mod(1, p);
        lemma_mod_equivalence((x * x) as int, 1, p as int);
    }
}

/// Removing an element divides the product by it.
proof fn lemma_product_remove(s: Seq<int>, i: int)
    requires
        0 <= i < s.len(),
    ensures
        int_product(s) == int_product(s.remove(i)) * s[i],
    decreases s.len(),
{
    if i == s.len() - 1 {
        assert(s.remove(i) =~= s.drop_last());
    } else {
        lemma_product_remove(s.drop_last(), i);
        assert(s.drop_last().remove(i) =~= s.remove(i).drop_last());
        assert(s.remove(i).last() == s.last());
        let a = int_product(s.drop_last().remove(i));
        assert((a * s[i]) * s.last() == (a * s.last()) * s[i]) by (nonlinear_arith);
    }
}

/// A sequence that holds each of `1, ..., n` once, in any order, has the
/// product `n!`.
proof fn lemma_product_of_permutation(s: Seq<int>, n: nat)
    requires
        s.len() == n,
        s.no_duplicates(),
        forall|i: int| 0 <= i < s.len() ==> 1 <= #[trigger] s[i] <= n,
    ensures
        int_product(s) == factorial(n),
    decreases n,
{
    if n > 0 {
        let range = set_int_range(1, n as int + 1);
        lemma_int_range(1, n as int + 1);
        s.unique_seq_to_set();
        vstd::seq_lib::seq_to_set_is_finite(s);
        assert(s.to_set().subset_of(range)) by {
            assert forall|v: int| s.to_set().contains(v) implies range.contains(v) by {
                let i = choose|i: int| 0 <= i < s.len() && s[i] == v;
                assert(1 <= s[i] <= n);
            }
        }
        lemma_subset_equality(s.to_set(), range);
        assert(range.contains(n as int));
        assert(s.to_set().contains(n as int));
        let i = choose|i: int| 0 <= i < s.len() && s[i] == n as int;
        let rest = s.remove(i);
        assert(rest.no_duplicates()) by {
            assert forall|a: int, b: int| 0 <= a < rest.len() && 0 <= b < rest.len() && a != b implies rest[a] != rest[b] by {
                let a2 = if a < i { a } else { a + 1 };
                let b2 = if b < i { b } else { b + 1 };
                assert(rest[a] == s[a2]);
                assert(rest[b] == s[b2]);
            }
        }
        assert forall|k: int| 0 <= k < rest.len() implies 1 <= #[trigger] rest[k] <= (n - 1) as nat by {
            let k2 = if k < i { k } else { k + 1 };
            assert(rest[k] == s[k2]);
            assert(s[k2] != s[i]);
        }
        lemma_product_of_permutation(rest, (n - 1) as nat);
        lemma_product_remove(s, i);
        assert(factorial((n - 1) as nat) * n == n * factorial((n - 1) as nat)) by (nonlinear_arith);
    }
}

/// The multiples `a, 2a, ..., ka` reduced modulo `p`.
spec fn residues(a: nat, p: nat, k: nat) -> Seq<int> {
    Seq::new(k, |i: int| (a * (i + 1)) % (p as int))
}

/// The product of the first `k` residues is congruent to `a^k * k!`.
proof fn lemma_residue_product(a: nat, p: nat, k: nat)
    requires
        p > 0,
    ensures
        int_product(residues(a, p, k)) % (p as int) == (pow(a as int, k) * factorial(k)) % (p as int),
    decreases k,
{
    if k == 0 {
        lemma_pow0(a as int);
    } else {
        let j: nat = (k - 1) as nat;
        lemma_residue_product(a, p, j);
        assert(residues(a, p, k).drop_last() =~= residues(a, p, j));
        let last: int = ((a * k) as int) % (p as int);
        assert(residues(a, p, k).last() == last);
        lemma_pow_adds(a as int, j, 1);
        lemma_pow1(a as int);
        lemma_mod_twice((a * k) as int, p as int);
        lemma_mul_congruent(
            int_product(residues(a, p, j)),
            pow(a as int, j) * factorial(j),
            last,
            (a * k) as int,
            p as int,
        );
        let x: int = pow(a as int, j);
        let f: int = factorial(j) as int;
        assert((x * f) * (a * k) == (x * a) * (k * f)) by (nonlinear_arith);
    }
}

/// A prime does not divide the factorial of a smaller number.
pub proof fn lemma_factorial_coprime(p: nat, k: nat)
    requires
        prime(p),
        k < p,
    ensures
        factorial(k) % p != 0,
    decreases k,
{
    if k == 0 {
        lemma_small_mod(1, p);
    } else {
        lemma_factorial_coprime(p, (k - 1) as nat);
        lemma_small_mod(k, p);
        lemma_euclid(p, k, factorial((k - 1) as nat));
    }
}

/// Fermat's little theorem: for a prime `p` that does not divide `a`,
/// `a^(p-1)` is 1 modulo `p`.
pub proof fn lemma_fermat_little(p: nat, a: nat)
    requires
        prime(p),
        a % p != 0,
    ensures
        pow(a as int, (p - 1) as nat) % (p as int) == 1,
{
    let n: nat = (p - 1) as nat;
    let s = residues(a, p, n);
    assert forall|i: int| 0 <= i < s.len() implies 1 <= #[trigger] s[i] <= n by {
        lemma_prime_small_factor(p, a, (i + 1) as nat);
        lemma_mod_bound((a * (i + 1)) as int, p as int);
    }
    assert(s.no_duplicates()) by {
        assert forall|i: int, j: int| 0 <= i < s.len() && 0 <= j < s.len() && i != j implies s[i] != s[j] by {
            let lo = if i < j { i } else { j };
            let hi = if i < j { j } else { i };
            if s[i] == s[j] {
                lemma_mod_equivalence((a * (hi + 1)) as int, (a * (lo + 1)) as int, p as int);
                assert(a * (hi + 1) - a * (lo + 1) == a * ((hi - lo) as nat)) by (nonlinear_arith)
                    requires
                        hi > lo,
                ;
                lemma_prime_small_factor(p, a, (hi - lo) as nat);
            }
        }
    }
    lemma_product_of_permutation(s, n);
    lemma_residue_product(a, p, n);
    lemma_factorial_coprime(p, n);
    let big: int = pow(a as int, n);
    let f: int = factorial(n) as int;
    assert(a > 0) by {
        if a == 0 {
            lemma_small_mod(0, p);
        }
    }
    lemma_pow_positive(a as int, n);
    lemma_mod_equivalence(big * f, f, p as int);
    assert(big * f - f == (big - 1) * f) by (nonlinear_arith);
    if (big - 1) % (p as int) != 0 {
        lemma_euclid(p, (big - 1) as nat, factorial(n));
    }
    lemma_mod_equivalence(big, 1, p as int);
    lemma_small_mod(1, p);
}

} // verus!
