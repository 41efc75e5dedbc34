use crate::factors::{
    divisor_product, is_factorization, is_prime, lemma_power_bounds, lemma_product_positive,
    power, product,
};
use crate::sieve::{BUCKETS, LIMIT};
use vstd::prelude::*;

verus! {

/// The product over the first `k` pairs does not exceed that over all.
pub proof fn lemma_divisor_product_prefix(s: Seq<(usize, u32)>, k: int)
    requires
        0 <= k <= s.len(),
    ensures
        divisor_product(s.take(k)) <= divisor_product(s),
        k < s.len() ==> divisor_product(s.take(k + 1)) == divisor_product(s.take(k)) * (s[k].1
            + 1),
    decreases s.len() - k,
{
    if k == s.len() {
        assert(s.take(k) =~= s);
    } else {
        lemma_divisor_product_prefix(s, k + 1);
        assert(s.take(k + 1).drop_last() =~= s.take(k));
        let a = divisor_product(s.take(k));
        let f = (s[k].1 + 1) as nat;
        assert(a <= a * f) by (nonlinear_arith)
            requires
                f >= 1,
        ;
    }
}

/// With primes of at least two, the divisor count does not exceed the number.
pub proof fn lemma_divisor_product_le(s: Seq<(usize, u32)>)
    requires
        forall|j: int| 0 <= j < s.len() ==> #[trigger] s[j].0 >= 2,
    ensures
        1 <= divisor_product(s) <= product(s),
    decreases s.len(),
{
    if s.len() > 0 {
        lemma_divisor_product_le(s.drop_last());
        lemma_power_bounds(s.last().0 as nat, s.last().1 as nat);
        let a = divisor_product(s.drop_last());
        let b = product(s.drop_last());
        let f = (s.last().1 + 1) as nat;
        let w = power(s.last().0 as nat, s.last().1 as nat);
        assert(1 <= a * f <= b * w) by (nonlinear_arith)
            requires
                1 <= a <= b,
                1 <= f <= w,
        ;
    }
}

/// The first eleven primes, by index.
pub open spec fn small_prime(j: int) -> nat {
    if j == 0 {
        2
    } else if j == 1 {
        3
    } else if j == 2 {
        5
    } else if j == 3 {
        7
    } else if j == 4 {
        11
    } else if j == 5 {
        13
    } else if j == 6 {
        17
    } else if j == 7 {
        19
    } else if j == 8 {
        23
    } else if j == 9 {
        29
    } else {
        31
    }
}

/// The product of the first `j` primes, for `j` up to eleven.
pub open spec fn primorial(j: nat) -> nat
    decreases j,
{
    if j == 0 {
        1
    } else {
        primorial((j - 1) as nat) * small_prime(j - 1)
    }
}

/// A prime above five is divisible by none of two, three and five.
pub proof fn lemma_small_divisors(x: nat)
    requires
        is_prime(x),
    ensures
        x >= 2,
        x > 2 ==> x % 2 != 0,
        x > 3 ==> x % 3 != 0,
        x > 5 ==> x % 5 != 0,
{
}

/// In an ascending sequence of primes, the one at index `j` is at least the
/// prime of that index.
pub proof fn lemma_prime_floor(s: Seq<(usize, u32)>, j: int)
    requires
        forall|a: int, b: int| 0 <= a < b < s.len() ==> s[a].0 < s[b].0,
        forall|i: int| 0 <= i < s.len() ==> is_prime(#[trigger] s[i].0 as nat),
        0 <= j < s.len(),
        j <= 10,
    ensures
        s[j].0 >= small_prime(j),
    decreases j,
{
    assert(is_prime(s[j].0 as nat));
    lemma_small_divisors(s[j].0 as nat);
    if j > 0 {
        lemma_prime_floor(s, j - 1);
        assert(s[j - 1].0 < s[j].0);
    }
}

/// The product over the first `k` pairs of a factorization does not exceed
/// the product over all of them.
pub proof fn lemma_product_prefix(s: Seq<(usize, u32)>, k: int)
    requires
        forall|i: int| 0 <= i < s.len() ==> #[trigger] s[i].0 >= 1,
        0 <= k <= s.len(),
    ensures
        1 <= product(s.take(k)) <= product(s),
    decreases s.len() - k,
{
    if k == s.len() {
        assert(s.take(k) =~= s);
        lemma_product_positive(s);
    } else {
        lemma_product_prefix(s, k + 1);
        assert(s.take(k + 1).drop_last() =~= s.take(k));
        lemma_product_positive(s.take(k));
        lemma_power_bounds(s[k].0 as nat, s[k].1 as nat);
        let a = product(s.take(k));
        let w = power(s[k].0 as nat, s[k].1 as nat);
        assert(a <= a * w) by (nonlinear_arith)
            requires
                w >= 1,
        ;
    }
}

/// The first `j` pairs of a factorization multiply to at least the product
/// of the first `j` primes.
pub proof fn lemma_prefix_primorial(s: Seq<(usize, u32)>, n: nat, j: nat)
    requires
        is_factorization(s, n),
        j <= s.len(),
        j <= 11,
    ensures
        product(s.take(j as int)) >= primorial(j) >= 1,
    decreases j,
{
    if j > 0 {
        lemma_prefix_primorial(s, n, (j - 1) as nat);
        assert(s.take(j as int).drop_last() =~= s.take(j - 1));
        lemma_prime_floor(s, j - 1);
        assert(is_prime(s[j - 1].0 as nat) && s[j - 1].1 >= 1);
        lemma_power_bounds(s[j - 1].0 as nat, s[j - 1].1 as nat);
        let a = product(s.take(j - 1));
        let w = power(s[j - 1].0 as nat, s[j - 1].1 as nat);
        let big_a = primorial((j - 1) as nat);
        let big_w = small_prime(j - 1);
        assert(a * w >= big_a * big_w >= 1) by (nonlinear_arith)
            requires
                a >= big_a >= 1,
                w >= big_w >= 1,
        ;
    }
}

/// The product of the first eleven primes.
pub proof fn lemma_primorial_eleven()
    ensures
        primorial(11) == LIMIT,
{
    assert(primorial(0) == 1);
    assert(primorial(1) == primorial(0) * small_prime(0));
    assert(primorial(1) == 2);
    assert(primorial(2) == primorial(1) * small_prime(1));
    assert(primorial(2) == 6);
    assert(primorial(3) == primorial(2) * small_prime(2));
    assert(primorial(3) == 30);
    assert(primorial(4) == primorial(3) * small_prime(3));
    assert(primorial(4) == 210);
    assert(primorial(5) == primorial(4) * small_prime(4));
    assert(primorial(5) == 2310);
    assert(primorial(6) == primorial(5) * small_prime(5));
    assert(primorial(6) == 30030);
    assert(primorial(7) == primorial(6) * small_prime(6));
    assert(primorial(7) == 510510);
    assert(primorial(8) == primorial(7) * small_prime(7));
    assert(primorial(8) == 9699690);
    assert(primorial(9) == primorial(8) * small_prime(8));
    assert(primorial(9) == 223092870);
    assert(primorial(10) == primorial(9) * small_prime(9));
    assert(primorial(10) == 6469693230);
    assert(primorial(11) == primorial(10) * small_prime(10));
    assert(primorial(11) == 200560490130);
}

/// A number below the product of the first eleven primes has at most ten
/// distinct prime factors.
pub proof fn lemma_distinct_bound(s: Seq<(usize, u32)>, n: nat)
    requires
        is_factorization(s, n),
        n < LIMIT,
    ensures
        s.len() <= BUCKETS,
{
    if s.len() >= 11 {
        assert forall|i: int| 0 <= i < s.len() implies #[trigger] s[i].0 >= 1 by {
            assert(is_prime(s[i].0 as nat));
        }
        lemma_product_prefix(s, 11);
        lemma_prefix_primorial(s, n, 11);
        lemma_primorial_eleven();
    }
}

} // verus!
