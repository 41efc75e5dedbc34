use crate::factors::{is_prime, least_factor, lemma_least_factor};
use vstd::prelude::*;

verus! {

/// The primes up to `n`, ascending.
pub open spec fn primes_upto(n: nat) -> Seq<usize>
    decreases n,
{
    if n < 2 {
        Seq::empty()
    } else if is_prime(n) {
        primes_upto((n - 1) as nat).push(n as usize)
    } else {
        primes_upto((n - 1) as nat)
    }
}

/// The first prime of the list from index `k` on that divides `i`, as long
/// as the squares of the primes tried do not exceed `i`.
pub open spec fn first_factor_from(primes: Seq<usize>, i: usize, k: int) -> Option<usize>
    decreases primes.len() - k,
{
    if k < 0 || k >= primes.len() {
        None
    } else if primes[k] * primes[k] > i {
        None
    } else if primes[k] > 0 && i % primes[k] == 0 {
        Some(primes[k])
    } else {
        first_factor_from(primes, i, k + 1)
    }
}

/// The list holds exactly the primes up to `n`, ascending.
pub open spec fn is_prime_list(s: Seq<usize>, n: nat) -> bool {
    &&& forall|a: int, b: int| 0 <= a < b < s.len() ==> s[a] < s[b]
    &&& forall|j: int| 0 <= j < s.len() ==> is_prime(#[trigger] s[j] as nat) && s[j] <= n
    &&& forall|p: usize| is_prime(p as nat) && p <= n ==> #[trigger] s.contains(p)
}

/// The list of primes up to `n` holds every prime up to `n`, nothing else,
/// and in ascending order.
pub proof fn lemma_primes_upto(n: nat)
    requires
        n <= usize::MAX,
    ensures
        is_prime_list(primes_upto(n), n),
    decreases n,
{
    let s = primes_upto(n);
    if n >= 2 {
        lemma_primes_upto((n - 1) as nat);
        let t = primes_upto((n - 1) as nat);
        assert forall|p: usize| is_prime(p as nat) && p <= n implies #[trigger] s.contains(p) by {
            if p < n {
                assert(t.contains(p));
                let j = choose|j: int| 0 <= j < t.len() && t[j] == p;
                assert(s[j] == p);
            } else {
                assert(s[s.len() - 1] == p);
            }
        }
        assert forall|a: int, b: int| 0 <= a < b < s.len() implies s[a] < s[b] by {
            if b < t.len() {
                assert(t[a] < t[b]);
            } else {
                assert(is_prime(t[a] as nat) && t[a] <= n - 1);
            }
        }
        assert forall|j: int| 0 <= j < s.len() implies is_prime(#[trigger] s[j] as nat) && s[j]
            <= n by {
            if j < t.len() {
                assert(is_prime(t[j] as nat) && t[j] <= n - 1);
            }
        }
    }
}

/// The square of the least factor of a composite number does not exceed it.
pub proof fn lemma_least_factor_square(i: nat)
    requires
        i >= 2,
        least_factor(i) < i,
    ensures
        least_factor(i) * least_factor(i) <= i,
{
    lemma_least_factor(i);
    let q = least_factor(i);
    let a = i / q;
    vstd::arithmetic::div_mod::lemma_fundamental_div_mod(i as int, q as int);
    assert(i == q * a);
    assert(a >= 2) by (nonlinear_arith)
        requires
            i == q * a,
            q < i,
            q >= 2,
    ;
    vstd::arithmetic::div_mod::lemma_mod_multiples_basic(q as int, a as int);
    assert(i % a == 0);
    if a < q {
        assert(i % a != 0);
    }
    assert(q * q <= q * a) by (nonlinear_arith)
        requires
            a >= q,
            q >= 2,
    ;
}

/// Scanning the primes below `i` finds the least factor of `i` where `i` is
/// composite, and nothing where `i` is prime.
pub proof fn lemma_first_factor(primes: Seq<usize>, i: usize, k: int)
    requires
        i >= 2,
        is_prime_list(primes, (i - 1) as nat),
        0 <= k <= primes.len(),
        forall|j: int| 0 <= j < k ==> primes[j] < least_factor(i as nat),
    ensures
        first_factor_from(primes, i, k) == if least_factor(i as nat) < i {
            Some(least_factor(i as nat) as usize)
        } else {
            None
        },
    decreases primes.len() - k,
{
    let q = least_factor(i as nat);
    lemma_least_factor(i as nat);
    if q < i {
        lemma_least_factor_square(i as nat);
        assert(primes.contains(q as usize));
    }
    if k >= primes.len() {
        if q < i {
            let kq = choose|j: int| 0 <= j < primes.len() && primes[j] == q as usize;
            assert(primes[kq] < q);
        }
    } else {
        let x = primes[k];
        assert(is_prime(x as nat) && x <= i - 1);
        if q < i {
            let kq = choose|j: int| 0 <= j < primes.len() && primes[j] == q as usize;
            if kq < k {
                assert(primes[kq] < q);
            }
            if kq > k {
                assert(primes[k] < primes[kq]);
            }
            assert(x <= q);
            assert(x * x <= q * q) by (nonlinear_arith)
                requires
                    x <= q,
            ;
        }
        if x * x > i {
        } else if i % x == 0 {
            if x < q {
                assert((i as nat) % (x as nat) != 0);
            }
        } else {
            assert forall|j: int| 0 <= j < k + 1 implies primes[j] < q by {
                if j == k {
                    if q < i {
                        assert(x != q);
                    }
                }
            }
            lemma_first_factor(primes, i, k + 1);
        }
    }
}

/// The first prime in `primes` that divides `i`, trying the primes in order
/// for as long as their squares do not exceed `i`.
pub fn find_prime_factor(primes: &Vec<usize>, i: usize) -> (r: Option<usize>)
    requires
        forall|j: int| 0 <= j < primes@.len() ==> primes@[j] > 0,
    ensures
        r == first_factor_from(primes@, i, 0),
{
    let n: usize = primes.len();
    let mut k: usize = 0;
    while k < n
        invariant
            n == primes@.len(),
            k <= n,
            forall|j: int| 0 <= j < primes@.len() ==> primes@[j] > 0,
            first_factor_from(primes@, i, 0) == first_factor_from(primes@, i, k as int),
        decreases n - k,
    {
        let p: usize = primes[k];
        assert(p * p <= u128::MAX) by (nonlinear_arith)
            requires
                p <= 0xffff_ffff_ffff_ffff,
        ;
        if (p as u128) * (p as u128) > i as u128 {
            return None;
        }
        if i % p == 0 {
            return Some(p);
        }
        k += 1;
    }
    None
}

} // verus!
