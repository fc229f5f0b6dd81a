//! Prime discovery for selecting a field modulus: a primality table and
//! the search for the smallest prime congruent to one modulo `n`.

use vstd::prelude::*;
use crate::modular::is_prime;

verus! {

/// A primality table: entry `i` says whether `i` is prime, for every
/// `i` below `num`.
#[verifier::loop_isolation(false)]
pub fn prime_sieve(num: usize) -> (r: Vec<bool>)
    requires
        num >= 2,
    ensures
        r@.len() == num,
        forall|i: int| 0 <= i < num ==> r@[i] == is_prime(i as nat),
{
    let mut numbers: Vec<bool> = Vec::new();
    let mut i: usize = 0;
    while i < num
        invariant
            i <= num,
            numbers@.len() == i,
            forall|k: int| 0 <= k < i ==> numbers@[k] == is_prime(k as nat),
        decreases num - i,
    {
        let mut composite: bool = false;
        let mut d: usize = 2;
        while d < i && !composite
            invariant
                2 <= d <= i || d == 2,
                forall|k: int| 2 <= k < d ==> #[trigger] ((i as int) % k) != 0,
                composite ==> d < i && (i as int) % (d as int) == 0,
            decreases i - d, (if composite {
                0int
            } else {
                1int
            }),
        {
            if i % d == 0 {
                composite = true;
            } else {
                d = d + 1;
            }
        }
        let flag = i >= 2 && !composite;
        proof {
            if flag {
                assert(is_prime(i as nat)) by {
                    assert forall|k: nat| 2 <= k < i implies #[trigger] ((i as nat) % k)
                        != 0 by {
                        assert((i as int) % (k as int) != 0);
                    }
                }
            } else {
                assert(!is_prime(i as nat)) by {
                    if composite {
                        let dd = d;
                        assert((i as nat) % (dd as nat) == 0);
                    }
                }
            }
        }
        numbers.push(flag);
        i = i + 1;
    }
    numbers
}

/// The smallest prime of the form `k * n + 1` with `k >= 1`: the prime
/// congruent to one modulo `n` that the transform sizes ask for.
///
/// The caller supplies, as a precondition, that some such prime exists in
/// the machine's range; the result is the least one.
#[verifier::loop_isolation(false)]
pub fn find_prime_congruent_one_mod_n(n: usize) -> (r: usize)
    requires
        n >= 1,
        exists|kk: nat|
            kk >= 1 && #[trigger] (kk * n) + 2 <= usize::MAX && is_prime(((kk * n + 1) as nat)),
    ensures
        is_prime(r as nat),
        exists|kk: nat| kk >= 1 && r == #[trigger] (kk * n) + 1,
        forall|kk: nat| 1 <= kk && #[trigger] (kk * n) + 1 < r ==> !is_prime(((kk * n + 1) as nat)),
{
    let ghost w = choose|kk: nat|
        kk >= 1 && #[trigger] (kk * n) + 2 <= usize::MAX && is_prime(((kk * n + 1) as nat));
    let mut k: usize = 1;
    while k >= 1
        invariant
            1 <= k,
            k <= w,
            forall|kk: nat| 1 <= kk < k ==> !is_prime(((#[trigger] (kk * n) + 1) as nat)),
        decreases w - k,
    {
        proof {
            assert(k * n <= w * n) by (nonlinear_arith)
                requires
                    0 <= k as int <= w,
                    n >= 1,
            ;
        }
        let p = k * n + 1;
        let primes = prime_sieve(p + 1);
        if primes[p] {
            proof {
                assert forall|kk: nat| 1 <= kk && #[trigger] (kk * n) + 1 < p implies !is_prime(
                    ((kk * n + 1) as nat),
                ) by {
                    assert(kk < k) by (nonlinear_arith)
                        requires
                            kk * n + 1 < k * n + 1,
                            n >= 1,
                    ;
                }
            }
            return p;
        }
        proof {
            if k == w {
                assert(p == w * n + 1);
                assert(false);
            }
            assert(w <= w * n) by (nonlinear_arith)
                requires
                    n >= 1,
                    w >= 0,
            ;
        }
        k = k + 1;
    }
    proof {
        assert(false);
    }
    0
}

} // verus!
