use crate::tiny_map::{has_key, lemma_lower_bound_range, lower_bound, sorted};
use vstd::prelude::*;

verus! {

/// A number with no divisor between one and itself.
pub open spec fn is_prime(n: nat) -> bool {
    n >= 2 && forall|d: nat| 2 <= d < n ==> #[trigger] (n % d) != 0
}

/// The least divisor of `n` that is at least `d`, or `n` where there is none
/// below it.
pub open spec fn least_factor_from(n: nat, d: nat) -> nat
    decreases n - d,
{
    if d >= n {
        n
    } else if d > 0 && n % d == 0 {
        d
    } else {
        least_factor_from(n, d + 1)
    }
}

/// The least divisor of `n` above one: its smallest prime factor.
pub open spec fn least_factor(n: nat) -> nat {
    least_factor_from(n, 2)
}

/// `b` to the power `e`.
pub open spec fn power(b: nat, e: nat) -> nat
    decreases e,
{
    if e == 0 {
        1
    } else {
        b * power(b, (e - 1) as nat)
    }
}

/// The number that a sequence of (prime, exponent) pairs stands for.
pub open spec fn product(s: Seq<(usize, u32)>) -> nat
    decreases s.len(),
{
    if s.len() == 0 {
        1
    } else {
        product(s.drop_last()) * power(s.last().0 as nat, s.last().1 as nat)
    }
}

/// The product of every exponent plus one: the divisor function of the
/// number that the pairs stand for.
pub open spec fn divisor_product(s: Seq<(usize, u32)>) -> nat
    decreases s.len(),
{
    if s.len() == 0 {
        1
    } else {
        divisor_product(s.drop_last()) * (s.last().1 + 1) as nat
    }
}

/// The pairs after one more factor `p`: its exponent raised by one where `p`
/// is present, `p` entered with exponent one at its place where not.
pub open spec fn bump(s: Seq<(usize, u32)>, p: usize) -> Seq<(usize, u32)> {
    let i = lower_bound(s, p);
    if has_key(s, p) {
        s.update(i, (p, (s[i].1 + 1) as u32))
    } else {
        s.insert(i, (p, 1u32))
    }
}

/// The prime factorization of `n`, ascending by prime: that of `n` divided by
/// its smallest prime factor, with that prime counted once more. The division
/// always gives less than `n`; the test only shows that the recursion ends.
pub open spec fn factorization(n: nat) -> Seq<(usize, u32)>
    decreases n,
{
    if n < 2 {
        Seq::empty()
    } else {
        let p = least_factor(n);
        if p > 0 && n / p < n {
            bump(factorization(n / p), p as usize)
        } else {
            Seq::empty()
        }
    }
}

/// The pairs are a prime factorization of `n`: ascending primes, each once,
/// with positive exponents, whose powers multiply to `n`.
pub open spec fn is_factorization(s: Seq<(usize, u32)>, n: nat) -> bool {
    &&& sorted(s)
    &&& forall|i: int| 0 <= i < s.len() ==> is_prime(#[trigger] s[i].0 as nat) && s[i].1 >= 1
    &&& product(s) == n
}

/// A multiple of a multiple is a multiple.
pub proof fn lemma_divides_transitive(n: nat, p: nat, d: nat)
    requires
        p > 0,
        d > 0,
        n % p == 0,
        p % d == 0,
    ensures
        n % d == 0,
{
    let a = n / p;
    let b = p / d;
    assert(n == p * a) by {
        vstd::arithmetic::div_mod::lemma_fundamental_div_mod(n as int, p as int);
    }
    assert(p == d * b) by {
        vstd::arithmetic::div_mod::lemma_fundamental_div_mod(p as int, d as int);
    }
    assert(n == (b * a) * d) by (nonlinear_arith)
        requires
            n == p * a,
            p == d * b,
    ;
    vstd::arithmetic::div_mod::lemma_mod_multiples_basic((b * a) as int, d as int);
}

/// What `least_factor_from` finds divides `n`, and nothing from `d` up to it
/// does.
pub proof fn lemma_least_factor_from(n: nat, d: nat)
    requires
        2 <= d <= n,
    ensures
        d <= least_factor_from(n, d) <= n,
        n % least_factor_from(n, d) == 0,
        forall|c: nat| d <= c < least_factor_from(n, d) ==> #[trigger] (n % c) != 0,
    decreases n - d,
{
    if d >= n {
        vstd::arithmetic::div_mod::lemma_mod_self_0(n as int);
    } else if n % d == 0 {
    } else {
        lemma_least_factor_from(n, d + 1);
    }
}

/// The least factor of `n` is a prime that divides `n`, and no smaller number
/// above one divides `n`.
pub proof fn lemma_least_factor(n: nat)
    requires
        n >= 2,
    ensures
        2 <= least_factor(n) <= n,
        n % least_factor(n) == 0,
        forall|c: nat| 2 <= c < least_factor(n) ==> #[trigger] (n % c) != 0,
        is_prime(least_factor(n)),
        is_prime(n) <==> least_factor(n) == n,
{
    lemma_least_factor_from(n, 2);
    let p = least_factor(n);
    assert forall|d: nat| 2 <= d < p implies #[trigger] (p % d) != 0 by {
        if p % d == 0 {
            lemma_divides_transitive(n, p, d);
            assert(n % d != 0);
        }
    }
    if is_prime(n) && p < n {
        assert(n % p != 0);
    }
}

/// A power of a positive base is positive, and twice a power of a base of at
/// least two exceeds the square of the exponent.
pub proof fn lemma_power_bounds(b: nat, e: nat)
    requires
        b >= 1,
    ensures
        power(b, e) >= 1,
        e >= 1 ==> power(b, e) >= b,
        b >= 2 ==> 2 * power(b, e) >= e * e + 2,
        b >= 2 ==> power(b, e) >= e + 1,
    decreases e,
{
    if e > 0 {
        lemma_power_bounds(b, (e - 1) as nat);
        let q = power(b, (e - 1) as nat);
        assert(b * q >= q && b * q >= b) by (nonlinear_arith)
            requires
                b >= 1,
                q >= 1,
        ;
        if b >= 2 {
            assert(2 * (b * q) >= e * e + 2 && b * q >= e + 1) by (nonlinear_arith)
                requires
                    b >= 2,
                    e >= 1,
                    q >= e,
                    2 * q >= (e - 1) * (e - 1) + 2,
            ;
        }
    }
}

/// Raising one exponent by one multiplies the product by that prime.
pub proof fn lemma_product_update(s: Seq<(usize, u32)>, i: int)
    requires
        0 <= i < s.len(),
        s[i].1 < u32::MAX,
    ensures
        product(s.update(i, (s[i].0, (s[i].1 + 1) as u32))) == product(s) * s[i].0,
    decreases s.len(),
{
    let t = s.update(i, (s[i].0, (s[i].1 + 1) as u32));
    let k = s[i].0 as nat;
    if i == s.len() - 1 {
        assert(t.drop_last() =~= s.drop_last());
        let a = product(s.drop_last());
        let w = power(k, s[i].1 as nat);
        assert(power(k, (s[i].1 + 1) as nat) == k * w);
        assert(a * (k * w) == (a * w) * k) by (nonlinear_arith);
    } else {
        assert(t.drop_last() =~= s.drop_last().update(i, (s[i].0, (s[i].1 + 1) as u32)));
        lemma_product_update(s.drop_last(), i);
        let a = product(s.drop_last());
        let w = power(s.last().0 as nat, s.last().1 as nat);
        assert((a * k) * w == (a * w) * k) by (nonlinear_arith);
    }
}

/// Entering a new prime with exponent one multiplies the product by it.
pub proof fn lemma_product_insert(s: Seq<(usize, u32)>, i: int, p: usize)
    requires
        0 <= i <= s.len(),
    ensures
        product(s.insert(i, (p, 1u32))) == product(s) * p,
    decreases s.len(),
{
    let t = s.insert(i, (p, 1u32));
    if i == s.len() {
        assert(t.drop_last() =~= s);
        assert(power(p as nat, 1) == p) by {
            assert(power(p as nat, 0) == 1);
            assert(power(p as nat, 1) == p * power(p as nat, 0));
        }
    } else {
        assert(t.drop_last() =~= s.drop_last().insert(i, (p, 1u32)));
        assert(t.last() == s.last());
        lemma_product_insert(s.drop_last(), i, p);
        let a = product(s.drop_last());
        let w = power(s.last().0 as nat, s.last().1 as nat);
        assert((a * p) * w == (a * w) * p) by (nonlinear_arith);
    }
}

/// With keys of at least one, each power is at most the whole product, and
/// the product is positive.
pub proof fn lemma_factor_le_product(s: Seq<(usize, u32)>, i: int)
    requires
        0 <= i < s.len(),
        forall|j: int| 0 <= j < s.len() ==> #[trigger] s[j].0 >= 1,
    ensures
        power(s[i].0 as nat, s[i].1 as nat) <= product(s),
    decreases s.len(),
{
    lemma_product_positive(s.drop_last());
    let a = product(s.drop_last());
    let w = power(s.last().0 as nat, s.last().1 as nat);
    lemma_power_bounds(s.last().0 as nat, s.last().1 as nat);
    assert(a * w >= w && a * w >= a) by (nonlinear_arith)
        requires
            a >= 1,
            w >= 1,
    ;
    if i < s.len() - 1 {
        lemma_factor_le_product(s.drop_last(), i);
    }
}

/// With keys of at least one the product is positive.
pub proof fn lemma_product_positive(s: Seq<(usize, u32)>)
    requires
        forall|j: int| 0 <= j < s.len() ==> #[trigger] s[j].0 >= 1,
    ensures
        product(s) >= 1,
    decreases s.len(),
{
    if s.len() > 0 {
        lemma_product_positive(s.drop_last());
        lemma_power_bounds(s.last().0 as nat, s.last().1 as nat);
        let a = product(s.drop_last());
        let w = power(s.last().0 as nat, s.last().1 as nat);
        assert(a * w >= 1) by (nonlinear_arith)
            requires
                a >= 1,
                w >= 1,
        ;
    }
}

/// In a factorization of a number below two to the sixty-second, every
/// exponent is below the largest `u32`.
pub proof fn lemma_exponent_bound(s: Seq<(usize, u32)>, n: nat, i: int)
    requires
        is_factorization(s, n),
        n < 0x4000_0000_0000_0000,
        0 <= i < s.len(),
    ensures
        s[i].1 < u32::MAX,
{
    assert forall|j: int| 0 <= j < s.len() implies #[trigger] s[j].0 >= 1 by {
        assert(is_prime(s[j].0 as nat));
    }
    lemma_factor_le_product(s, i);
    assert(is_prime(s[i].0 as nat));
    lemma_power_bounds(s[i].0 as nat, s[i].1 as nat);
    let e = s[i].1 as nat;
    assert(e * e + 2 <= 0x8000_0000_0000_0000);
    assert(e < 0xffff_ffff) by (nonlinear_arith)
        requires
            e * e + 2 <= 0x8000_0000_0000_0000,
    ;
}

/// One more factor `p` on a factorization of `m` gives a factorization of
/// `m` times `p`.
pub proof fn lemma_bump(s: Seq<(usize, u32)>, m: nat, p: usize)
    requires
        is_factorization(s, m),
        is_prime(p as nat),
        m < 0x4000_0000_0000_0000,
    ensures
        is_factorization(bump(s, p), m * (p as nat)),
        bump(s, p).len() == s.len() + if has_key(s, p) { 0int } else { 1int },
{
    lemma_lower_bound_range(s, p);
    let i = lower_bound(s, p);
    let t = bump(s, p);
    if has_key(s, p) {
        lemma_exponent_bound(s, m, i);
        lemma_product_update(s, i);
        assert forall|a: int, b: int| 0 <= a < b < t.len() implies t[a].0 < t[b].0 by {
            assert(s[a].0 < s[b].0);
        }
        assert forall|j: int| 0 <= j < t.len() implies is_prime(#[trigger] t[j].0 as nat)
            && t[j].1 >= 1 by {
            assert(is_prime(s[j].0 as nat) && s[j].1 >= 1);
        }
    } else {
        lemma_product_insert(s, i, p);
        assert forall|a: int, b: int| 0 <= a < b < t.len() implies t[a].0 < t[b].0 by {
            let sa = if a < i { a } else { a - 1 };
            let sb = if b < i { b } else { b - 1 };
            if a != i && b != i {
                assert(s[sa].0 < s[sb].0);
            } else if a == i {
                assert(s[i].0 <= s[sb].0);
            }
        }
        assert forall|j: int| 0 <= j < t.len() implies is_prime(#[trigger] t[j].0 as nat)
            && t[j].1 >= 1 by {
            if j < i {
                assert(is_prime(s[j].0 as nat) && s[j].1 >= 1);
            } else if j > i {
                assert(is_prime(s[j - 1].0 as nat) && s[j - 1].1 >= 1);
            }
        }
    }
}

/// The factorization of `n` is made of ascending primes with positive
/// exponents, and their powers multiply back to `n`.
pub proof fn lemma_factorization(n: nat)
    requires
        1 <= n < 0x4000_0000_0000_0000,
        n <= usize::MAX,
    ensures
        is_factorization(factorization(n), n),
    decreases n,
{
    if n < 2 {
        assert(product(Seq::<(usize, u32)>::empty()) == 1);
    } else {
        lemma_least_factor(n);
        let p = least_factor(n);
        let m = n / p;
        vstd::arithmetic::div_mod::lemma_fundamental_div_mod(n as int, p as int);
        assert(n == p * m);
        assert(1 <= m < n) by (nonlinear_arith)
            requires
                n == p * m,
                p >= 2,
                n >= 2,
        ;
        lemma_factorization(m);
        lemma_bump(factorization(m), m, p as usize);
        assert(m * p == n) by (nonlinear_arith)
            requires
                n == p * m,
        ;
    }
}

/// A prime has itself, once, as its whole factorization, and two divisors.
pub proof fn lemma_prime_factorization(n: nat)
    requires
        is_prime(n),
        n <= usize::MAX,
    ensures
        factorization(n) == Seq::<(usize, u32)>::empty().insert(0, (n as usize, 1u32)),
        divisor_product(factorization(n)) == 2,
{
    lemma_least_factor(n);
    vstd::arithmetic::div_mod::lemma_div_basics(n as int);
    let none = Seq::<(usize, u32)>::empty();
    let one = none.insert(0, (n as usize, 1u32));
    assert(factorization(1) == none);
    assert(lower_bound(none, n as usize) == 0);
    assert(bump(none, n as usize) == one);
    assert(factorization(n) == bump(factorization(n / n), n as usize));
    assert(one.len() == 1);
    assert(one.last() == (n as usize, 1u32));
    assert(one.drop_last() =~= none);
    assert(divisor_product(none) == 1);
    assert(divisor_product(one) == divisor_product(one.drop_last()) * (one.last().1 + 1) as nat);
}

} // verus!
