//! A table of smallest prime factors, built by a sieve, and factorization by
//! lookup in it.

use vstd::prelude::*;
use vstd::arithmetic::div_mod::{
    lemma_mod_equivalence, lemma_small_mod, lemma_mod_self_0, lemma_div_decreases, lemma_mod_adds,
};
use crate::numbers::{
    prime, divides, product, ascending, lemma_divides_transitive, lemma_divides_quotient,
    lemma_multiple_divides, lemma_product_push,
};

verus! {

/// `f` is the smallest divisor of `x` above 1.
pub open spec fn is_least_factor(x: nat, f: nat) -> bool {
    &&& 1 < f <= x
    &&& x % f == 0
    &&& forall|e: nat| 1 < e < f ==> #[trigger] (x % e) != 0
}

/// The smallest divisor above 1 is a prime.
pub proof fn lemma_least_factor_is_prime(x: nat, f: nat)
    requires
        is_least_factor(x, f),
    ensures
        prime(f),
{
    assert forall|e: nat| 1 < e < f implies #[trigger] (f % e) != 0 by {
        if f % e == 0 {
            lemma_divides_transitive(e, f, x);
            assert(x % e == 0);
        }
    }
}

/// What the table holds for `x` once the sieve has dealt with every
/// candidate below `bound`: nothing if `x` has no divisor there, and else
/// its smallest divisor above 1.
pub open spec fn sieved(x: nat, entry: nat, bound: nat) -> bool {
    if entry == 0 {
        forall|e: nat| 1 < e < bound ==> #[trigger] (x % e) != 0
    } else {
        entry < bound && is_least_factor(x, entry)
    }
}

/// Between a multiple of `i` and the next one there is no multiple of `i`.
proof fn lemma_no_multiple_between(i: nat, j: nat, x: nat)
    requires
        i > 0,
        j % i == 0,
        j < x < j + i,
    ensures
        x % i != 0,
{
    if x % i == 0 {
        lemma_mod_equivalence(x as int, j as int, i as int);
        lemma_small_mod((x - j) as nat, i);
    }
}

/// Why a lookup in the table was refused.
#[derive(Debug, Clone, Copy, PartialEq, Eq, Structural)]
pub enum SpfError {
    /// The number is above the limit that the table was built for.
    AboveLimit,
    /// Zero has no factorization.
    Zero,
}

/// The smallest prime factor of every number up to a limit.
pub struct Spf {
    spf_max_limit: usize,
    spf: Vec<u64>,
}

impl Spf {
    #[verifier::type_invariant]
    spec fn well_formed(self) -> bool {
        &&& self.spf@.len() == self.spf_max_limit + 1
        &&& forall|x: int|
            0 <= x <= self.spf_max_limit ==> if x < 2 {
                #[trigger] self.spf@[x] == 0
            } else {
                is_least_factor(x as nat, self.spf@[x] as nat)
            }
    }

    /// The limit that the table was built for.
    pub closed spec fn max_limit(self) -> nat {
        self.spf_max_limit as nat
    }

    /// Builds the table for the numbers up to `max_limit`.
    pub fn new(max_limit: usize) -> (table: Spf)
        requires
            max_limit < usize::MAX,
        ensures
            table.max_limit() == max_limit,
    {
        let mut spf: Vec<u64> = vec![0; max_limit + 1];
        let mut i: usize = 2;
        while i <= max_limit
            invariant
                2 <= i,
                i <= max_limit + 1 || max_limit < 2,
                max_limit < usize::MAX,
                spf@.len() == max_limit + 1,
                forall|x: int| 0 <= x < 2 && x <= max_limit ==> #[trigger] spf@[x] == 0,
                forall|x: int| 2 <= x <= max_limit ==> sieved(x as nat, #[trigger] spf@[x] as nat, i as nat),
            decreases max_limit + 1 - i,
        {
            if spf[i] == 0 {
                let mut j: usize = i;
                proof {
                    assert(sieved(i as nat, spf@[i as int] as nat, i as nat));
                    lemma_mod_self_0(i as int);
                    assert forall|x: int| 2 <= x <= max_limit implies sieved(
                        x as nat,
                        #[trigger] spf@[x] as nat,
                        if x % (i as int) == 0 && x < j {
                            (i + 1) as nat
                        } else {
                            i as nat
                        },
                    ) by {
                        if x < i {
                            lemma_small_mod(x as nat, i as nat);
                        }
                    }
                }
                while j <= max_limit
                    invariant
                        2 <= i <= max_limit,
                        i <= j,
                        j <= max_limit + 1,
                        max_limit < usize::MAX,
                        j % i == 0 || j == max_limit + 1,
                        spf@.len() == max_limit + 1,
                        forall|e: nat| 1 < e < i ==> #[trigger] (i as nat % e) != 0,
                        forall|x: int| 0 <= x < 2 && x <= max_limit ==> #[trigger] spf@[x] == 0,
                        forall|x: int|
                            2 <= x <= max_limit ==> sieved(
                                x as nat,
                                #[trigger] spf@[x] as nat,
                                if x % (i as int) == 0 && x < j {
                                    (i + 1) as nat
                                } else {
                                    i as nat
                                },
                            ),
                        forall|x: int| 2 <= x <= max_limit && x % (i as int) != 0 ==> sieved(
                            x as nat,
                            #[trigger] spf@[x] as nat,
                            (i + 1) as nat,
                        ),
                    decreases max_limit + 1 - j,
                {
                    let ghost before = spf@;
                    if spf[j] == 0 {
                        spf.set(j, i as u64);
                    }
                    let next: usize = if max_limit - j >= i {
                        j + i
                    } else {
                        max_limit + 1
                    };
                    proof {
                        assert(sieved(j as nat, before[j as int] as nat, i as nat));
                        assert(sieved(j as nat, spf@[j as int] as nat, (i + 1) as nat));
                        if max_limit - j >= i {
                            lemma_mod_adds(j as int, i as int, i as int);
                            lemma_mod_self_0(i as int);
                        }
                        assert forall|x: int| 2 <= x <= max_limit implies sieved(
                            x as nat,
                            #[trigger] spf@[x] as nat,
                            if x % (i as int) == 0 && x < next {
                                (i + 1) as nat
                            } else {
                                i as nat
                            },
                        ) by {
                            if x != j {
                                assert(spf@[x] == before[x]);
                                if x % (i as int) == 0 && x < next && x > j {
                                    lemma_no_multiple_between(i as nat, j as nat, x as nat);
                                }
                            }
                        }
                        assert forall|x: int| 2 <= x <= max_limit && x % (i as int) != 0 implies sieved(
                            x as nat,
                            #[trigger] spf@[x] as nat,
                            (i + 1) as nat,
                        ) by {
                            assert(spf@[x] == before[x]);
                        }
                    }
                    j = next;
                }
            } else {
                proof {
                    let v: nat = spf@[i as int] as nat;
                    assert(sieved(i as nat, v, i as nat));
                    assert forall|x: int| 2 <= x <= max_limit implies sieved(
                        x as nat,
                        #[trigger] spf@[x] as nat,
                        (i + 1) as nat,
                    ) by {
                        assert(sieved(x as nat, spf@[x] as nat, i as nat));
                        if spf@[x] == 0 && x % (i as int) == 0 {
                            lemma_divides_transitive(v, i as nat, x as nat);
                            assert(x as nat % v == 0);
                        }
                    }
                }
            }
            i = i + 1;
        }
        proof {
            assert forall|x: int| 2 <= x <= max_limit implies is_least_factor(
                x as nat,
                #[trigger] spf@[x] as nat,
            ) by {
                assert(sieved(x as nat, spf@[x] as nat, i as nat));
                if spf@[x] == 0 {
                    lemma_mod_self_0(x);
                    assert(x as nat % (x as nat) == 0);
                }
            }
        }
        Spf { spf_max_limit: max_limit, spf }
    }

    /// The smallest prime factor of `x`, and 0 for 0 and 1.
    pub fn get_spf(&self, x: u64) -> (r: Result<u64, SpfError>)
        ensures
            x > self.max_limit() ==> r == Err::<u64, SpfError>(SpfError::AboveLimit),
            x <= self.max_limit() ==> r is Ok,
            x <= self.max_limit() && x < 2 ==> r == Ok::<u64, SpfError>(0),
            x <= self.max_limit() && x >= 2 ==> is_least_factor(x as nat, r.unwrap() as nat),
    {
        proof {
            use_type_invariant(self);
        }
        if x > self.spf_max_limit as u64 {
            return Err(SpfError::AboveLimit);
        }
        Ok(self.spf[x as usize])
    }

    /// The prime factors of `x` in ascending order, each as often as it
    /// divides `x`.
    pub fn factorize(&self, x: u64) -> (r: Result<Vec<u64>, SpfError>)
        ensures
            x > self.max_limit() ==> r == Err::<Vec<u64>, SpfError>(SpfError::AboveLimit),
            x == 0 ==> r == Err::<Vec<u64>, SpfError>(SpfError::Zero),
            0 < x <= self.max_limit() ==> r is Ok,
            r is Ok ==> ascending(r.unwrap()@) && product(r.unwrap()@) == x && forall|k: int|
                0 <= k < r.unwrap()@.len() ==> prime(#[trigger] r.unwrap()@[k] as nat),
    {
        proof {
            use_type_invariant(self);
        }
        if x > self.spf_max_limit as u64 {
            return Err(SpfError::AboveLimit);
        }
        if x == 0 {
            return Err(SpfError::Zero);
        }
        let mut factors: Vec<u64> = Vec::new();
        let mut y: usize = x as usize;
        let ghost low: nat = 0;
        assert(product(factors@) == 1);
        assert(1 * (y as nat) == y as nat);
        while y != 1
            invariant
                1 <= y <= x,
                x <= self.spf_max_limit,
                self.well_formed(),
                product(factors@) * (y as nat) == x,
                ascending(factors@),
                forall|k: int| 0 <= k < factors@.len() ==> prime(#[trigger] factors@[k] as nat),
                forall|k: int| 0 <= k < factors@.len() ==> #[trigger] factors@[k] <= low,
                forall|e: nat| 1 < e < low ==> #[trigger] (y as nat % e) != 0,
            decreases y,
        {
            let f: u64 = self.spf[y];
            let ghost before = factors@;
            let ghost old_y: nat = y as nat;
            assert(is_least_factor(old_y, f as nat));
            factors.push(f);
            y = y / (f as usize);
            proof {
                lemma_least_factor_is_prime(old_y, f as nat);
                lemma_divides_quotient(f as nat, old_y);
                lemma_div_decreases(old_y as int, f as int);
                assert(y >= 1) by {
                    if y == 0 {
                        assert((f as nat) * 0 == 0);
                    }
                }
                lemma_product_push(before, f);
                assert((product(before) * (f as nat)) * (y as nat) == product(before) * old_y) by (nonlinear_arith)
                    requires
                        old_y == (f as nat) * (y as nat),
                ;
                lemma_multiple_divides(y as nat, f as nat);
                assert(divides(y as nat, old_y));
                assert(low <= f) by {
                    if f < low {
                        assert(old_y % (f as nat) != 0);
                    }
                }
                assert forall|e: nat| 1 < e < f implies #[trigger] (y as nat % e) != 0 by {
                    if y as nat % e == 0 {
                        lemma_divides_transitive(e, y as nat, old_y);
                        assert(old_y % e == 0);
                    }
                }
                assert forall|a: int, b: int| 0 <= a <= b < factors@.len() implies factors@[a] <= factors@[b] by {
                    if a < before.len() {
                        assert(factors@[a] == before[a]);
                    }
                    if b < before.len() {
                        assert(factors@[b] == before[b]);
                    }
                }
                low = f as nat;
            }
        }
        Ok(factors)
    }
}

} // verus!
