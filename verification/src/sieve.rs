//! A bounded prime sieve: a flag for every number up to a limit, cleared for
//! every number that turns out composite.

use vstd::arithmetic::div_mod::{lemma_fundamental_div_mod, lemma_mod_multiples_basic};
use vstd::prelude::*;

verus! {

/// `n` is at least 2 and no number strictly between 1 and `n` divides it.
pub open spec fn is_prime(n: int) -> bool {
    n >= 2 && forall|d: int| 2 <= d < n ==> #[trigger] (n % d) != 0
}

/// No number from 2 up to, but excluding, `bound` is a proper divisor of `n`.
spec fn no_small_divisor(n: int, bound: int) -> bool {
    forall|d: int| 2 <= d < bound && d < n ==> #[trigger] (n % d) != 0
}

/// Where `d` divides `n` and `n` is positive, the cofactor `n / d` divides
/// `n` too, and the two multiply to `n`.
proof fn lemma_cofactor(n: int, d: int)
    requires
        0 < d <= n,
        n % d == 0,
    ensures
        (n / d) * d == n,
        d * (n / d) == n,
        1 <= n / d <= n,
        n % (n / d) == 0,
        d < n ==> n / d >= 2,
        d >= 2 ==> n / d < n,
{
    let q = n / d;
    lemma_fundamental_div_mod(n, d);
    assert(q >= 1 && q <= n && (d < n ==> q >= 2) && (d >= 2 ==> q < n) && q * d == n)
        by (nonlinear_arith)
        requires
            n == d * q,
            0 < d <= n,
    ;
    lemma_mod_multiples_basic(d, q);
}

/// Divisibility is transitive.
proof fn lemma_divides_transitive(n: int, m: int, d: int)
    requires
        0 < d,
        0 < m,
        0 <= n,
        n % m == 0,
        m % d == 0,
    ensures
        n % d == 0,
{
    lemma_fundamental_div_mod(n, m);
    lemma_fundamental_div_mod(m, d);
    let a = n / m;
    let b = m / d;
    assert(n == (a * b) * d) by (nonlinear_arith)
        requires
            n == m * a,
            m == d * b,
    ;
    lemma_mod_multiples_basic(a * b, d);
}

/// No multiple of `m` lies strictly between two consecutive multiples of `m`.
proof fn lemma_next_multiple(n: int, base: int, m: int)
    requires
        0 < m,
        0 <= base,
        base % m == 0,
        base < n < base + m,
    ensures
        n % m != 0,
{
    if n % m == 0 {
        lemma_fundamental_div_mod(n, m);
        lemma_fundamental_div_mod(base, m);
        let a = n / m;
        let b = base / m;
        assert(false) by (nonlinear_arith)
            requires
                n == m * a,
                base == m * b,
                base < n < base + m,
                0 < m,
        ;
    }
}

/// For a positive `n`, `n <= limit / n` says that the square of `n` is at
/// most `limit`.
proof fn lemma_square_within(n: int, limit: int)
    requires
        0 < n,
        0 <= limit,
    ensures
        (n <= limit / n) <==> (n * n <= limit),
{
    lemma_fundamental_div_mod(limit, n);
    let q = limit / n;
    let r = limit % n;
    assert((n <= q) <==> (n * n <= limit)) by (nonlinear_arith)
        requires
            limit == n * q + r,
            0 <= r < n,
            0 < n,
    ;
}

/// A number with no proper divisor below `bound`, where the square of
/// `bound` exceeds it, is prime.
proof fn lemma_prime_by_small_divisors(n: int, bound: int)
    requires
        n >= 2,
        bound >= 0,
        bound * bound > n,
        no_small_divisor(n, bound),
    ensures
        is_prime(n),
{
    assert forall|d: int| 2 <= d < n implies #[trigger] (n % d) != 0 by {
        if n % d == 0 {
            if d >= bound {
                lemma_cofactor(n, d);
                let q = n / d;
                assert(q < bound) by (nonlinear_arith)
                    requires
                        q * d == n,
                        d >= bound,
                        bound >= 0,
                        bound * bound > n,
                        q >= 0,
                ;
            }
        }
    }
}

/// The sieve's state: a limit and one flag for each number from 0 to the
/// limit.
pub struct Sieve {
    limit: usize,
    is_prime: Vec<bool>,
}

impl View for Sieve {
    type V = Seq<bool>;

    /// The flags, indexed by the number that each one speaks of.
    closed spec fn view(&self) -> Seq<bool> {
        self.is_prime@
    }
}

impl Sieve {
    /// The largest number that the sieve speaks of.
    pub closed spec fn limit(&self) -> nat {
        self.limit as nat
    }

    /// Every number is still flagged: nothing has been computed yet.
    pub open spec fn is_fresh(&self) -> bool {
        forall|i: int| 0 <= i < self@.len() ==> #[trigger] self@[i]
    }

    /// The flags tell the primes from the rest.
    pub open spec fn is_computed(&self) -> bool {
        forall|i: int| 0 <= i < self@.len() ==> #[trigger] self@[i] == is_prime(i)
    }

    /// There is one flag for each number up to the limit, and the sieve is
    /// either fresh or computed.
    pub open spec fn wf(&self) -> bool {
        &&& self@.len() == self.limit() + 1
        &&& self.is_fresh() || self.is_computed()
    }

    /// A fresh sieve for the numbers up to `limit`, all of them flagged.
    pub fn new(limit: usize) -> (s: Self)
        requires
            limit < usize::MAX,
        ensures
            s.wf(),
            s.limit() == limit,
            s.is_fresh(),
    {
        Sieve { limit, is_prime: vec![true; limit + 1] }
    }

    /// Clears the flag of every number that is not prime.
    pub fn calculate_primes(&mut self)
        requires
            old(self).wf(),
        ensures
            final(self).wf(),
            final(self).limit() == old(self).limit(),
            final(self).is_computed(),
    {
        let limit: usize = self.limit;
        self.is_prime[0] = false;
        if limit >= 1 {
            self.is_prime[1] = false;
        }
        let mut num: usize = 2;
        while num <= limit / num
            invariant
                self.limit == limit,
                self.is_prime@.len() == limit + 1,
                num >= 2,
                forall|i: int| 0 <= i <= limit && is_prime(i) ==> #[trigger] self.is_prime@[i],
                forall|i: int|
                    0 <= i <= limit && #[trigger] self.is_prime@[i] ==> i >= 2 && no_small_divisor(
                        i,
                        num as int,
                    ),
            decreases limit - num,
        {
            proof {
                lemma_square_within(num as int, limit as int);
                assert(num < limit) by (nonlinear_arith)
                    requires
                        num * num <= limit,
                        num >= 2,
                ;
            }
            let ghost at_entry = self.is_prime@;
            if self.is_prime[num] {
                let mut multiple: usize = num * num;
                let mut more: bool = true;
                let ghost cleared_below: int = multiple as int;
                proof {
                    lemma_mod_multiples_basic(num as int, num as int);
                }
                while more
                    invariant
                        self.limit == limit,
                        self.is_prime@.len() == limit + 1,
                        num >= 2,
                        num * num <= limit,
                        at_entry.len() == limit + 1,
                        more ==> multiple <= limit && cleared_below == multiple,
                        !more ==> cleared_below > limit,
                        more ==> multiple % num == 0 && multiple >= num * num,
                        forall|i: int|
                            0 <= i <= limit && #[trigger] self.is_prime@[i] ==> at_entry[i],
                        forall|i: int|
                            0 <= i <= limit && is_prime(i) ==> #[trigger] self.is_prime@[i],
                        forall|i: int|
                            num * num <= i < cleared_below && i <= limit && i % (num as int) == 0
                                ==> !#[trigger] self.is_prime@[i],
                    decreases limit - multiple + (if more { 1int } else { 0int }),
                {
                    self.is_prime[multiple] = false;
                    proof {
                        assert(num < multiple) by (nonlinear_arith)
                            requires
                                multiple >= num * num,
                                num >= 2,
                        ;
                        assert(!is_prime(multiple as int)) by {
                            assert((multiple as int) % (num as int) == 0);
                        }
                        assert forall|i: int|
                            num * num <= i < multiple + num && i <= limit && i % (num as int)
                                == 0 implies !#[trigger] self.is_prime@[i] by {
                            if i > multiple {
                                lemma_next_multiple(i, multiple as int, num as int);
                            }
                        }
                    }
                    if limit - multiple >= num {
                        multiple += num;
                        proof {
                            cleared_below = multiple as int;
                            vstd::arithmetic::div_mod::lemma_mod_adds(
                                multiple - num,
                                num as int,
                                num as int,
                            );
                        }
                    } else {
                        more = false;
                        proof {
                            cleared_below = multiple + num;
                        }
                    }
                }
                proof {
                    assert forall|i: int|
                        0 <= i <= limit && #[trigger] self.is_prime@[i] implies i >= 2
                        && no_small_divisor(i, num + 1) by {
                        if num < i && i % (num as int) == 0 {
                            lemma_cofactor(i, num as int);
                            let q = i / (num as int);
                            if q >= num {
                                assert(i >= num * num) by (nonlinear_arith)
                                    requires
                                        q * num == i,
                                        q >= num,
                                        num >= 2,
                                ;
                                assert(false);
                            } else {
                                assert(i % q == 0);
                                assert(false);
                            }
                        }
                    }
                }
            } else {
                proof {
                    let d = choose|d: int| 2 <= d < num && #[trigger] ((num as int) % d) == 0;
                    assert forall|i: int|
                        0 <= i <= limit && #[trigger] self.is_prime@[i] implies i >= 2
                        && no_small_divisor(i, num + 1) by {
                        assert(no_small_divisor(i, num as int));
                        if num < i && i % (num as int) == 0 {
                            lemma_divides_transitive(i, num as int, d);
                            assert(false);
                        }
                    }
                }
            }
            num += 1;
        }
        proof {
            lemma_square_within(num as int, limit as int);
            assert forall|i: int| 0 <= i < self@.len() implies #[trigger] self@[i] == is_prime(
                i,
            ) by {
                if self.is_prime@[i] {
                    assert(num * num > i) by (nonlinear_arith)
                        requires
                            num * num > limit,
                            i <= limit,
                    ;
                    lemma_prime_by_small_divisors(i, num as int);
                }
            }
        }
    }

    /// The numbers from 2 to the limit whose flag is set, in ascending order:
    /// after `calculate_primes`, the primes up to the limit.
    pub fn get_primes(&self) -> (primes: Vec<usize>)
        requires
            self.wf(),
        ensures
            forall|i: int, j: int|
                0 <= i < j < primes@.len() ==> #[trigger] primes@[i] < #[trigger] primes@[j],
            forall|k: int|
                0 <= k < primes@.len() ==> 2 <= #[trigger] primes@[k] <= self.limit()
                    && self@[primes@[k] as int],
            forall|n: usize| 2 <= n <= self.limit() && self@[n as int] ==> primes@.contains(n),
            self.is_computed() ==> forall|n: usize|
                primes@.contains(n) <==> n <= self.limit() && is_prime(n as int),
    {
        let mut primes: Vec<usize> = Vec::new();
        let flag_count: usize = self.is_prime.len();
        let mut num: usize = 2;
        while num < flag_count
            invariant
                flag_count == self.limit() + 1,
                flag_count == self@.len(),
                self@ == self.is_prime@,
                num >= 2,
                forall|i: int, j: int|
                    0 <= i < j < primes@.len() ==> #[trigger] primes@[i] < #[trigger] primes@[j],
                forall|k: int|
                    0 <= k < primes@.len() ==> 2 <= #[trigger] primes@[k] < num && primes@[k]
                        < flag_count && self@[primes@[k] as int],
                forall|n: usize| 2 <= n < num && self@[n as int] ==> primes@.contains(n),
            decreases flag_count - num,
        {
            if self.is_prime[num] {
                let ghost prev = primes@;
                primes.push(num);
                proof {
                    assert(primes@[prev.len() as int] == num);
                    assert forall|n: usize|
                        2 <= n < num + 1 && self@[n as int] implies primes@.contains(
                        n,
                    ) by {
                        if n < num {
                            assert(prev.contains(n));
                            let k = choose|k: int| 0 <= k < prev.len() && prev[k] == n;
                            assert(primes@[k] == n);
                        }
                    }
                }
            }
            num += 1;
        }
        proof {
            if self.is_computed() {
                assert forall|n: usize|
                    primes@.contains(n) <==> n <= self.limit() && is_prime(n as int) by {
                    if primes@.contains(n) {
                        let k = choose|k: int| 0 <= k < primes@.len() && primes@[k] == n;
                        assert(self@[primes@[k] as int]);
                    }
                }
            }
        }
        primes
    }
}

} // verus!
