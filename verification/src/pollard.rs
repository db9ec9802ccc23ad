//! The primality oracle, the search for a divisor, and the factorizer built
//! from them.

use vstd::prelude::*;
use vstd::arithmetic::power::{pow, lemma_pow_mod_noop};
use vstd::arithmetic::power2::{pow2, lemma_pow2_unfold, lemma2_to64};
use vstd::arithmetic::div_mod::{lemma_mul_mod_noop_general, lemma_div_decreases};
use crate::modexp::{mod_exp, gcd, lemma_product_fits};
use crate::primality::{
    witnesses, odd_part, two_adicity, strong_probable_prime, passes_oracle,
    lemma_prime_passes_oracle, lemma_square_step,
};
use crate::numbers::{
    prime, composite, nontrivial_divisor, product, ascending, lemma_divisor_bounds,
    lemma_prime_or_composite, lemma_product_push, lemma_divides_quotient,
};

verus! {

/// Multiplies `a` and `b` modulo `modulus`, through a 128-bit product.
pub fn modmul(a: u64, b: u64, modulus: u64) -> (r: u64)
    requires
        modulus > 0,
    ensures
        r == (a as nat * b as nat) % (modulus as nat),
{
    let x: u64 = a % modulus;
    let y: u64 = b % modulus;
    proof {
        lemma_product_fits(x, y);
        lemma_mul_mod_noop_general(a as int, b as int, modulus as int);
    }
    ((x as u128) * (y as u128) % (modulus as u128)) as u64
}

/// The bases of the oracle. With these seven the strong-probable-prime test
/// is known to admit no composite below 2^64.
pub const WITNESSES: [u64; 7] = [2, 325, 9375, 28178, 450775, 9780504, 1795265022];

/// Tests `n` against one base: whether `n` is a strong probable prime to it.
fn passes_witness(n: u64, a: u64, d: u64, s: u64) -> (ok: bool)
    requires
        n >= 3,
        n % 2 == 1,
        d == odd_part((n - 1) as nat),
        s == two_adicity((n - 1) as nat),
        d >= 1,
    ensures
        ok == strong_probable_prime(n as nat, a as nat),
{
    let am: u64 = a % n;
    if am == 0 {
        return true;
    }
    let mut p: u64 = mod_exp(am, d, n);
    proof {
        lemma_pow_mod_noop(a as int, d as nat, n as int);
        lemma2_to64();
        assert(d * pow2(0) == d);
        assert(s >= 1);
    }
    if p == 1 || p == n - 1 {
        proof {
            if p == n - 1 {
                assert(pow(a as int, d as nat * pow2(0)) % (n as int) == n - 1);
            }
        }
        return true;
    }
    let mut r: u64 = 1;
    let mut found: bool = false;
    while r < s && !found
        invariant
            n >= 3,
            d == odd_part((n - 1) as nat),
            s == two_adicity((n - 1) as nat),
            1 <= r <= s,
            p < n,
            p == pow(a as int, d as nat * pow2((r - 1) as nat)) % (n as int),
            found ==> p == n - 1,
            !found ==> forall|j: nat| j < r ==> #[trigger] pow(a as int, d as nat * pow2(j)) % (n as int) != n - 1,
        decreases s - r + (if found { 0int } else { 1int }),
    {
        let ghost k: nat = d as nat * pow2((r - 1) as nat);
        let ghost old_p: nat = p as nat;
        p = modmul(p, p, n);
        proof {
            lemma_square_step(a as nat, k, n as nat, old_p);
            lemma_pow2_unfold(r as nat);
            assert(2 * (d as nat * pow2((r - 1) as nat)) == d as nat * (2 * pow2((r - 1) as nat)))
                by (nonlinear_arith);
            assert(2 * k == d as nat * pow2(r as nat));
        }
        if p == n - 1 {
            found = true;
        }
        r = r + 1;
    }
    proof {
        if found {
            assert(r - 1 < s);
        }
    }
    found
}

/// Decides whether `n` is prime, by the strong-probable-prime test against the
/// seven fixed bases.
pub fn is_prime(n: u64) -> (b: bool)
    ensures
        b == passes_oracle(n as nat),
        prime(n as nat) ==> b,
{
    proof {
        if prime(n as nat) {
            lemma_prime_passes_oracle(n as nat);
        }
    }
    if n < 2 || n % 6 % 4 != 1 {
        return n == 2 || n == 3;
    }
    assert(n % 2 == 1 && n % 3 != 0);
    let mut d: u64 = n - 1;
    let mut s: u64 = 0;
    proof {
        lemma2_to64();
    }
    while d % 2 == 0
        invariant
            d >= 1,
            odd_part(d as nat) == odd_part((n - 1) as nat),
            two_adicity(d as nat) + s == two_adicity((n - 1) as nat),
            s <= 64,
            d as nat * pow2(s as nat) <= n - 1,
        decreases d,
    {
        proof {
            lemma_pow2_unfold((s + 1) as nat);
            assert((d / 2) as nat * (2 * pow2(s as nat)) <= d as nat * pow2(s as nat)) by (nonlinear_arith)
                requires
                    d % 2 == 0,
            ;
            if s == 64 {
                lemma2_to64();
                vstd::arithmetic::power2::lemma2_to64_rest();
                assert(d as nat * pow2(64) >= pow2(64)) by (nonlinear_arith)
                    requires
                        d >= 1,
                ;
            }
        }
        d = d / 2;
        s = s + 1;
    }
    let mut k: usize = 0;
    while k < 7
        invariant
            n >= 3,
            n % 2 == 1,
            n % 3 != 0,
            prime(n as nat) ==> passes_oracle(n as nat),
            k <= 7,
            d >= 1,
            d == odd_part((n - 1) as nat),
            s == two_adicity((n - 1) as nat),
            forall|i: int| 0 <= i < k ==> strong_probable_prime(n as nat, #[trigger] witnesses()[i]),
        decreases 7 - k,
    {
        let a: u64 = WITNESSES[k];
        assert(a == witnesses()[k as int]);
        if !passes_witness(n, a, d, s) {
            proof {
                assert(!strong_probable_prime(n as nat, witnesses()[k as int]));
            }
            return false;
        }
        k = k + 1;
    }
    true
}

/// How many steps the pseudo-random walk may take before the search for a
/// divisor falls back to trial division.
pub const WALK_LIMIT: u64 = 0x1_0000_0000;

/// One step of the walk: `x * x mod n + 1`.
fn advance(x: u64, n: u64) -> (r: u64)
    requires
        n > 0,
    ensures
        r == (x as nat * x as nat) % (n as nat) + 1,
        1 <= r <= n,
{
    modmul(x, x, n) + 1
}

/// The smallest divisor of a composite `n` above 1, by trial division.
pub fn first_divisor(n: u64) -> (d: u64)
    requires
        composite(n as nat),
    ensures
        nontrivial_divisor(d as nat, n as nat),
        forall|e: nat| 1 < e < d ==> #[trigger] (n as nat % e) != 0,
{
    let ghost c: nat = choose|c: nat| 1 < c < n as nat && #[trigger] (n as nat % c) == 0;
    let mut d: u64 = 2;
    while n % d != 0
        invariant
            2 <= d <= c,
            1 < c < n as nat,
            n as nat % c == 0,
            forall|e: nat| 1 < e < d ==> #[trigger] (n as nat % e) != 0,
        decreases c - d,
    {
        d = d + 1;
    }
    d
}

/// Finds a nontrivial divisor of a composite `n`.
///
/// The search is Pollard's rho walk in Brent's form, which multiplies the
/// differences of the two walkers together and takes a greatest common
/// divisor with `n` once in 40 steps. The walk carries no guarantee of
/// success; after `WALK_LIMIT` steps without a divisor the function finds
/// one by trial division instead.
pub fn pollard(n: u64) -> (d: u64)
    requires
        composite(n as nat),
    ensures
        nontrivial_divisor(d as nat, n as nat),
{
    let mut x: u64 = 0;
    let mut y: u64 = 0;
    let mut t: u64 = 30;
    let mut prd: u64 = 2;
    let mut i: u64 = 1;
    let mut g: u64 = 1;
    proof {
        let c: nat = choose|c: nat| 1 < c < n as nat && #[trigger] (n as nat % c) == 0;
        assert(n != 3) by {
            if n == 3 {
                assert(c == 2);
            }
        }
    }
    while g == 1 && t < WALK_LIMIT
        invariant
            n >= 4,
            1 <= prd < n,
            i + 29 <= t,
            t <= WALK_LIMIT,
            g == 1 || nontrivial_divisor(g as nat, n as nat),
        decreases WALK_LIMIT - t,
    {
        if x == y {
            x = i;
            i = i + 1;
            y = advance(x, n);
        }
        let diff: u64 = if x > y {
            x - y
        } else {
            y - x
        };
        let q: u64 = modmul(prd, diff % n, n);
        if q != 0 {
            prd = q;
        }
        x = advance(x, n);
        y = advance(y, n);
        y = advance(y, n);
        t = t + 1;
        if t % 40 == 0 {
            g = gcd(prd, n);
            proof {
                lemma_divisor_bounds(g as nat, prd as nat);
            }
        }
    }
    if g == 1 {
        first_divisor(n)
    } else {
        g
    }
}

/// Merges two ascending vectors into one ascending vector.
fn merge(l: &Vec<u64>, r: &Vec<u64>) -> (out: Vec<u64>)
    requires
        ascending(l@),
        ascending(r@),
    ensures
        ascending(out@),
        out@.to_multiset() =~= l@.to_multiset().add(r@.to_multiset()),
        product(out@) == product(l@) * product(r@),
{
    let mut out: Vec<u64> = Vec::new();
    let mut i: usize = 0;
    let mut j: usize = 0;
    proof {
        assert(l@.take(0) =~= Seq::<u64>::empty());
        assert(r@.take(0) =~= Seq::<u64>::empty());
        broadcast use vstd::seq_lib::group_to_multiset_ensures;
        assert(out@.to_multiset() =~= l@.take(0).to_multiset().add(r@.take(0).to_multiset()));
        assert(product(l@.take(0)) == 1);
        assert(product(r@.take(0)) == 1);
        assert(product(out@) == 1);
    }
    while i < l.len() || j < r.len()
        invariant
            i <= l.len(),
            j <= r.len(),
            ascending(l@),
            ascending(r@),
            ascending(out@),
            forall|k: int| 0 <= k < out@.len() && i < l@.len() ==> out@[k] <= l@[i as int],
            forall|k: int| 0 <= k < out@.len() && j < r@.len() ==> out@[k] <= r@[j as int],
            out@.to_multiset() =~= l@.take(i as int).to_multiset().add(r@.take(j as int).to_multiset()),
            product(out@) == product(l@.take(i as int)) * product(r@.take(j as int)),
        decreases l.len() - i + r.len() - j,
    {
        let ghost before: Seq<u64> = out@;
        let from_left: bool = if i < l.len() && j < r.len() {
            l[i] <= r[j]
        } else {
            i < l.len()
        };
        if from_left {
            let v: u64 = l[i];
            out.push(v);
            proof {
                broadcast use vstd::seq_lib::group_to_multiset_ensures;
                assert(l@.take(i + 1) =~= l@.take(i as int).push(v));
                lemma_product_push(before, v);
                lemma_product_push(l@.take(i as int), v);
                assert(product(before) * (v as nat) == (product(l@.take(i as int)) * (v as nat)) * product(r@.take(j as int)))
                    by (nonlinear_arith)
                    requires
                        product(before) == product(l@.take(i as int)) * product(r@.take(j as int)),
                ;
            }
            i = i + 1;
        } else {
            let v: u64 = r[j];
            out.push(v);
            proof {
                broadcast use vstd::seq_lib::group_to_multiset_ensures;
                assert(r@.take(j + 1) =~= r@.take(j as int).push(v));
                lemma_product_push(before, v);
                lemma_product_push(r@.take(j as int), v);
                assert(product(before) * (v as nat) == product(l@.take(i as int)) * (product(r@.take(j as int)) * (v as nat)))
                    by (nonlinear_arith)
                    requires
                        product(before) == product(l@.take(i as int)) * product(r@.take(j as int)),
                ;
            }
            j = j + 1;
        }
    }
    proof {
        assert(l@.take(i as int) =~= l@);
        assert(r@.take(j as int) =~= r@);
    }
    out
}

/// Factorizes `n` into primes: the result is ascending, its product is `n`,
/// and each element passes the primality oracle.
pub fn factor(n: u64) -> (v: Vec<u64>)
    requires
        n >= 1,
    ensures
        ascending(v@),
        product(v@) == n,
        forall|k: int| 0 <= k < v@.len() ==> passes_oracle(#[trigger] v@[k] as nat),
        n == 1 ==> v@ =~= Seq::<u64>::empty(),
        prime(n as nat) ==> v@ =~= seq![n],
    decreases n,
{
    if n == 1 {
        return Vec::new();
    }
    if is_prime(n) {
        let mut v: Vec<u64> = Vec::new();
        v.push(n);
        proof {
            lemma_product_push(Seq::<u64>::empty(), n);
            assert(v@ =~= seq![n]);
            assert(Seq::<u64>::empty().push(n) =~= v@);
            assert(product(Seq::<u64>::empty()) == 1);
            assert(1 * (n as nat) == n as nat);
        }
        return v;
    }
    proof {
        lemma_prime_or_composite(n as nat);
    }
    let x: u64 = pollard(n);
    proof {
        lemma_divides_quotient(x as nat, n as nat);
        lemma_div_decreases(n as int, x as int);
        assert(n / x >= 1) by {
            if n / x == 0 {
                assert((x as nat) * 0 == 0);
            }
        }
    }
    let l: Vec<u64> = factor(x);
    let r: Vec<u64> = factor(n / x);
    let v: Vec<u64> = merge(&l, &r);
    proof {
        broadcast use vstd::seq_lib::group_to_multiset_ensures;
        assert forall|k: int| 0 <= k < v@.len() implies passes_oracle(#[trigger] v@[k] as nat) by {
            let e: u64 = v@[k];
            assert(v@.contains(e));
            assert(v@.to_multiset().count(e) > 0);
            assert(l@.to_multiset().count(e) > 0 || r@.to_multiset().count(e) > 0);
            if l@.to_multiset().count(e) > 0 {
                assert(l@.contains(e));
                let a = choose|a: int| 0 <= a < l@.len() && l@[a] == e;
                assert(passes_oracle(l@[a] as nat));
            } else {
                assert(r@.contains(e));
                let a = choose|a: int| 0 <= a < r@.len() && r@[a] == e;
                assert(passes_oracle(r@[a] as nat));
            }
        }
    }
    v
}

} // verus!
