//! The sieve of Eratosthenes: finds every prime below a bound by
//! crossing out the proper multiples of each prime as it is reached.

use vstd::prelude::*;
use vstd::pervasive::VecAdditionalExecFns;
use vstd::arithmetic::div_mod::lemma_fundamental_div_mod;
use vstd::arithmetic::div_mod::lemma_mod_multiples_basic;

verus! {

/// Whether `p` is a prime number.
pub open spec fn is_prime(p: int) -> bool {
    p >= 2 && forall|d: int| 2 <= d < p ==> #[trigger] (p % d) != 0
}

/// Whether `m` is a proper multiple (cofactor at least two) of some
/// prime smaller than `bound`: exactly the numbers the sieve has
/// crossed out once every candidate below `bound` is processed.
pub open spec fn is_crossed(m: int, bound: int) -> bool {
    exists|q: int, k: int| is_prime(q) && 2 <= q < bound && k >= 2 && m == #[trigger] (q * k)
}

/// Whether `m` is `p` times some cofactor in `[2, bound)`: what the
/// inner marking loop has crossed out so far.
spec fn crossed_by(p: int, m: int, bound: int) -> bool {
    exists|k: int| 2 <= k < bound && m == #[trigger] (p * k)
}

/// A composite number is a proper multiple of some smaller prime.
proof fn lemma_composite_is_crossed(p: int)
    requires
        p >= 2,
        !is_prime(p),
    ensures
        is_crossed(p, p),
    decreases p,
{
    let d = choose|d: int| 2 <= d < p && #[trigger] (p % d) == 0;
    lemma_fundamental_div_mod(p, d);
    let c = p / d;
    assert(p == d * c);
    assert(c >= 2) by (nonlinear_arith)
        requires
            p == d * c,
            2 <= d < p,
    ;
    if is_prime(d) {
        assert(is_prime(d) && 2 <= d < p && c >= 2 && p == d * c);
    } else {
        lemma_composite_is_crossed(d);
        let (q, k) = choose|q: int, k: int|
            is_prime(q) && 2 <= q < d && k >= 2 && d == #[trigger] (q * k);
        assert(p == q * (k * c) && k * c >= 2) by (nonlinear_arith)
            requires
                p == d * c,
                d == q * k,
                k >= 2,
                c >= 2,
        ;
        assert(is_prime(q) && 2 <= q < p && k * c >= 2 && p == q * (k * c));
    }
}

/// A number the sieve has crossed out is not prime.
proof fn lemma_crossed_not_prime(p: int)
    requires
        is_crossed(p, p),
    ensures
        !is_prime(p),
{
    let (q, k) = choose|q: int, k: int|
        is_prime(q) && 2 <= q < p && k >= 2 && p == #[trigger] (q * k);
    lemma_mod_multiples_basic(k, q);
    assert(q * k == k * q) by (nonlinear_arith);
    assert(p % q == 0);
}

/// Find all prime numbers less than `n`, in increasing order: the
/// result lists every prime below `n` and nothing else.
pub fn sieve(n: u32) -> (primes: Vec<u32>)
    ensures
        forall|i: int| 0 <= i < primes@.len() ==> is_prime(#[trigger] primes@[i] as int)
            && primes@[i] < n,
        forall|q: u32| q < n && is_prime(q as int) ==> primes@.contains(q),
        forall|i: int, j: int| 0 <= i < j < primes@.len() ==> primes@[i] < primes@[j],
{
    let mut flags: Vec<bool> = Vec::new();
    let mut idx: usize = 0;
    while idx < n as usize
        invariant
            idx <= n as usize,
            flags@.len() == idx,
            forall|m: int| 0 <= m < idx ==> !(#[trigger] flags@[m]),
        decreases n as usize - idx,
    {
        flags.push(false);
        idx += 1;
    }
    let mut prime_nums: Vec<u32> = Vec::new();
    let mut p: u32 = 2;
    proof {
        assert forall|m: int| 0 <= m < n implies !is_crossed(m, 2) by {
            if is_crossed(m, 2) {
                let (q, k) = choose|q: int, k: int|
                    is_prime(q) && 2 <= q < 2 && k >= 2 && m == #[trigger] (q * k);
            }
        }
    }
    while p < n
        invariant
            flags@.len() == n,
            2 <= p,
            p == 2 || p <= n,
            forall|m: int| 0 <= m < n ==> (#[trigger] flags@[m] <==> is_crossed(m, p as int)),
            forall|i: int| 0 <= i < prime_nums@.len() ==> is_prime(#[trigger] prime_nums@[i] as int)
                && prime_nums@[i] < p,
            forall|q: u32| q < p && is_prime(q as int) ==> prime_nums@.contains(q),
            forall|i: int, j: int| 0 <= i < j < prime_nums@.len() ==> prime_nums@[i]
                < prime_nums@[j],
        decreases n - p,
    {
        if !flags[p as usize] {
            proof {
                if !is_prime(p as int) {
                    lemma_composite_is_crossed(p as int);
                }
            }
            let ghost old_primes = prime_nums@;
            prime_nums.push(p);
            proof {
                assert forall|q: u32| q < p + 1 && is_prime(q as int) implies prime_nums@.contains(
                    q,
                ) by {
                    if q < p {
                        let i = choose|i: int| 0 <= i < old_primes.len() && old_primes[i] == q;
                        assert(prime_nums@[i] == q);
                    } else {
                        assert(prime_nums@[prime_nums@.len() - 1] == q);
                    }
                }
            }
            let mut multiplier: u64 = 2;
            let mut multiple: u64 = 2 * (p as u64);
            proof {
                assert forall|m: int| 0 <= m < n implies !crossed_by(p as int, m, 2) by {
                    if crossed_by(p as int, m, 2) {
                        let k = choose|k: int| 2 <= k < 2 && m == #[trigger] ((p as int) * k);
                    }
                }
            }
            while multiple < n as u64
                invariant
                    flags@.len() == n,
                    is_prime(p as int),
                    2 <= p < n,
                    multiplier >= 2,
                    multiple == multiplier * (p as u64),
                    forall|m: int| 0 <= m < n ==> (#[trigger] flags@[m] <==> is_crossed(
                        m,
                        p as int,
                    ) || crossed_by(p as int, m, multiplier as int)),
                decreases n as int + p as int - multiple as int,
            {
                let pos: usize = multiple as usize;
                let ghost old_flags = flags@;
                flags.set(pos, true);
                proof {
                    assert(multiple as int == (p as int) * (multiplier as int)) by (nonlinear_arith)
                        requires
                            multiple == multiplier * (p as u64),
                    ;
                    assert forall|m: int| 0 <= m < n implies (#[trigger] flags@[m] <==> is_crossed(
                        m,
                        p as int,
                    ) || crossed_by(p as int, m, multiplier as int + 1)) by {
                        if m == multiple as int {
                            assert(m == (p as int) * (multiplier as int));
                            assert(crossed_by(p as int, m, multiplier as int + 1));
                        } else {
                            assert(flags@[m] == old_flags[m]);
                            if crossed_by(p as int, m, multiplier as int + 1) {
                                let k = choose|k: int|
                                    2 <= k < multiplier as int + 1 && m == #[trigger] ((p as int)
                                        * k);
                                assert(k != multiplier as int);
                                assert(crossed_by(p as int, m, multiplier as int));
                            }
                            if crossed_by(p as int, m, multiplier as int) {
                                let k = choose|k: int|
                                    2 <= k < multiplier as int && m == #[trigger] ((p as int) * k);
                                assert(crossed_by(p as int, m, multiplier as int + 1));
                            }
                        }
                    }
                }
                proof {
                    assert(multiplier < n as u64) by (nonlinear_arith)
                        requires
                            multiplier * (p as u64) < n as u64,
                            2 <= (p as u64),
                            multiplier >= 2,
                    ;
                    assert((multiplier + 1) * (p as u64) == multiplier * (p as u64) + (p as u64)
                        && multiplier * (p as u64) + (p as u64) < 2 * (n as u64)) by (
                    nonlinear_arith)
                        requires
                            multiplier * (p as u64) < n as u64,
                            2 <= (p as u64) < (n as u64),
                    ;
                }
                multiplier = multiplier + 1;
                multiple = multiplier * (p as u64);
            }
            proof {
                assert forall|m: int| 0 <= m < n implies (#[trigger] flags@[m] <==> is_crossed(
                    m,
                    p as int + 1,
                )) by {
                    if flags@[m] {
                        if is_crossed(m, p as int) {
                            let (q, k) = choose|q: int, k: int|
                                is_prime(q) && 2 <= q < p as int && k >= 2 && m == #[trigger] (q
                                    * k);
                            assert(is_prime(q) && 2 <= q < p as int + 1 && k >= 2 && m == q * k);
                        } else {
                            let k = choose|k: int|
                                2 <= k < multiplier as int && m == #[trigger] ((p as int) * k);
                            assert(is_prime(p as int) && k >= 2 && m == (p as int) * k);
                        }
                        assert(is_crossed(m, p as int + 1));
                    } else {
                        if is_crossed(m, p as int + 1) {
                            let (q, k) = choose|q: int, k: int|
                                is_prime(q) && 2 <= q < p as int + 1 && k >= 2 && m == #[trigger] (
                                q * k);
                            if q == p as int {
                                assert(2 <= k < multiplier as int) by (nonlinear_arith)
                                    requires
                                        m == (p as int) * k,
                                        k >= 2,
                                        0 <= m < n,
                                        multiple == multiplier * (p as u64),
                                        multiple >= n as u64,
                                        2 <= p < n,
                                ;
                                assert(crossed_by(p as int, m, multiplier as int));
                                assert(false);
                            } else {
                                assert(is_crossed(m, p as int));
                                assert(false);
                            }
                        }
                    }
                }
            }
        } else {
            proof {
                assert(is_crossed(p as int, p as int));
                lemma_crossed_not_prime(p as int);
                assert forall|m: int| 0 <= m < n implies (#[trigger] flags@[m] <==> is_crossed(
                    m,
                    p as int + 1,
                )) by {
                    if flags@[m] {
                        let (q, k) = choose|q: int, k: int|
                            is_prime(q) && 2 <= q < p as int && k >= 2 && m == #[trigger] (q * k);
                        assert(is_prime(q) && 2 <= q < p as int + 1 && k >= 2 && m == q * k);
                        assert(is_crossed(m, p as int + 1));
                    } else {
                        if is_crossed(m, p as int + 1) {
                            let (q, k) = choose|q: int, k: int|
                                is_prime(q) && 2 <= q < p as int + 1 && k >= 2 && m == #[trigger] (
                                q * k);
                            assert(q != p as int);
                            assert(is_crossed(m, p as int));
                            assert(false);
                        }
                    }
                }
            }
        }
        p += 1;
    }
    prime_nums
}

} // verus!
