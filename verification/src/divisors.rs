use crate::factors::{
    divisor_product, factorization, is_factorization, is_prime, lemma_factorization, power,
    product,
};
use vstd::prelude::*;

verus! {

/// The positive divisors of `n`.
pub open spec fn divisors(n: nat) -> Set<nat> {
    Set::new(|d: nat| 1 <= d <= n && n % d == 0)
}

/// The number of positive divisors of `n`.
pub open spec fn divisor_count(n: nat) -> nat {
    divisors(n).len()
}

/// The numbers from one to `n`.
pub open spec fn range_to(n: nat) -> Set<nat> {
    Set::new(|d: nat| 1 <= d <= n)
}

/// There are finitely many numbers from one to `n`.
pub proof fn lemma_range_finite(n: nat)
    ensures
        range_to(n).finite(),
    decreases n,
{
    if n == 0 {
        assert(range_to(n) =~= Set::<nat>::empty());
    } else {
        lemma_range_finite((n - 1) as nat);
        assert(range_to(n) =~= range_to((n - 1) as nat).insert(n));
    }
}

/// A number has finitely many divisors.
pub proof fn lemma_divisors_finite(n: nat)
    ensures
        divisors(n).finite(),
{
    lemma_range_finite(n);
    vstd::set_lib::lemma_len_subset(divisors(n), range_to(n));
}

/// A product with `p` is a multiple of `p`.
pub proof fn lemma_multiple(p: nat, c: nat, x: nat)
    requires
        p > 0,
        x == p * c,
    ensures
        x % p == 0,
{
    vstd::arithmetic::div_mod::lemma_mod_multiples_basic(c as int, p as int);
    assert(c * p == p * c) by (nonlinear_arith);
}

/// A multiple of `d` is `d` times its quotient.
pub proof fn lemma_quotient(n: nat, d: nat) -> (k: nat)
    requires
        d > 0,
        n % d == 0,
    ensures
        n == d * k,
        n >= 1 ==> k >= 1 && d <= n,
{
    vstd::arithmetic::div_mod::lemma_fundamental_div_mod(n as int, d as int);
    let k = n / d;
    assert(n == d * k);
    if n >= 1 {
        assert(k >= 1 && d <= n) by (nonlinear_arith)
            requires
                n == d * k,
                n >= 1,
                d > 0,
        ;
    }
    k
}

/// A prime that divides a product divides one of the two factors.
pub proof fn lemma_prime_divides_product(p: nat, a: nat, b: nat)
    requires
        is_prime(p),
        (a * b) % p == 0,
    ensures
        a % p == 0 || b % p == 0,
    decreases a,
{
    let k = lemma_quotient(a * b, p);
    if a == 0 {
    } else if a == 1 {
        assert(a * b == b) by (nonlinear_arith)
            requires
                a == 1,
        ;
    } else if a >= p {
        let r = a % p;
        let q = a / p;
        vstd::arithmetic::div_mod::lemma_fundamental_div_mod(a as int, p as int);
        if r != 0 {
            assert(k >= q * b && r * b == p * (k - q * b)) by (nonlinear_arith)
                requires
                    a == p * q + r,
                    a * b == p * k,
                    0 < r < p,
            ;
            lemma_multiple(p, (k - q * b) as nat, r * b);
            lemma_prime_divides_product(p, r, b);
            vstd::arithmetic::div_mod::lemma_small_mod(r, p);
        }
    } else {
        let r = p % a;
        let q = p / a;
        vstd::arithmetic::div_mod::lemma_fundamental_div_mod(p as int, a as int);
        assert(r != 0);
        assert(b >= q * k && r * b == p * (b - q * k)) by (nonlinear_arith)
            requires
                p == a * q + r,
                a * b == p * k,
                0 < r < a,
                p > 0,
        ;
        lemma_multiple(p, (b - q * k) as nat, r * b);
        lemma_prime_divides_product(p, r, b);
        vstd::arithmetic::div_mod::lemma_small_mod(r, p);
    }
}

/// A divisor of `q` times `n` that the prime `q` does not divide is a
/// divisor of `n`.
pub proof fn lemma_coprime_divisor(q: nat, n: nat, d: nat)
    requires
        is_prime(q),
        d > 0,
        d % q != 0,
        (q * n) % d == 0,
    ensures
        n % d == 0,
{
    let k = lemma_quotient(q * n, d);
    lemma_multiple(q, n, d * k);
    lemma_prime_divides_product(q, d, k);
    let j = lemma_quotient(k, q);
    assert(n == d * j) by (nonlinear_arith)
        requires
            q * n == d * k,
            k == q * j,
            q > 0,
    ;
    lemma_multiple(d, j, n);
}

/// A prime that divides a power divides its base.
pub proof fn lemma_prime_divides_power(q: nat, b: nat, e: nat)
    requires
        is_prime(q),
        power(b, e) % q == 0,
    ensures
        b % q == 0,
    decreases e,
{
    if e == 0 {
        vstd::arithmetic::div_mod::lemma_small_mod(1, q);
    } else {
        lemma_prime_divides_product(q, b, power(b, (e - 1) as nat));
        if b % q != 0 {
            lemma_prime_divides_power(q, b, (e - 1) as nat);
        }
    }
}

/// A prime that divides a number is one of the primes of its factorization.
pub proof fn lemma_prime_in_factorization(s: Seq<(usize, u32)>, n: nat, q: nat) -> (i: int)
    requires
        is_factorization(s, n),
        is_prime(q),
        n % q == 0,
    ensures
        0 <= i < s.len(),
        s[i].0 == q,
    decreases s.len(),
{
    if s.len() == 0 {
        vstd::arithmetic::div_mod::lemma_small_mod(1, q);
        0
    } else {
        let t = s.drop_last();
        let k = s.last().0 as nat;
        let w = power(k, s.last().1 as nat);
        lemma_prime_divides_product(q, product(t), w);
        if product(t) % q == 0 {
            lemma_drop_last(s, n);
            lemma_prime_in_factorization(t, product(t), q)
        } else {
            lemma_prime_divides_power(q, k, s.last().1 as nat);
            assert(is_prime(s[s.len() - 1].0 as nat));
            let c = lemma_quotient(k, q);
            if q < k {
                assert(k % q != 0);
            }
            s.len() - 1
        }
    }
}

/// A factorization without its last pair is the factorization of the
/// product of the rest.
pub proof fn lemma_drop_last(s: Seq<(usize, u32)>, n: nat)
    requires
        is_factorization(s, n),
        s.len() > 0,
    ensures
        is_factorization(s.drop_last(), product(s.drop_last())),
{
    let t = s.drop_last();
    assert forall|a: int, b: int| 0 <= a < b < t.len() implies t[a].0 < t[b].0 by {
        assert(s[a].0 < s[b].0);
    }
    assert forall|i: int| 0 <= i < t.len() implies is_prime(#[trigger] t[i].0 as nat) && t[i].1
        >= 1 by {
        assert(is_prime(s[i].0 as nat) && s[i].1 >= 1);
    }
}

/// A divisor of `m` times the `e`-th power of a prime `q` that does not
/// divide `m` times the power before it is that `e`-th power times a
/// divisor of `m`.
pub proof fn lemma_full_power(m: nat, q: nat, e: nat, d: nat) -> (c: nat)
    requires
        is_prime(q),
        m >= 1,
        e >= 1,
        d >= 1,
        (m * power(q, e)) % d == 0,
        (m * power(q, (e - 1) as nat)) % d != 0,
    ensures
        d == power(q, e) * c,
        c >= 1,
        m % c == 0,
    decreases e,
{
    let lo = m * power(q, (e - 1) as nat);
    let hi = m * power(q, e);
    assert(hi == q * lo) by (nonlinear_arith)
        requires
            hi == m * (q * power(q, (e - 1) as nat)),
            lo == m * power(q, (e - 1) as nat),
    ;
    if d % q != 0 {
        lemma_coprime_divisor(q, lo, d);
    }
    let d1 = lemma_quotient(d, q);
    let k = lemma_quotient(hi, d);
    assert(lo == d1 * k) by (nonlinear_arith)
        requires
            hi == q * lo,
            hi == d * k,
            d == q * d1,
            q > 0,
    ;
    lemma_multiple(d1, k, lo);
    if e == 1 {
        assert(power(q, 0) == 1);
        assert(power(q, 1) == q * power(q, 0));
        assert(lo == m) by (nonlinear_arith)
            requires
                lo == m * 1,
        ;
        d1
    } else {
        let lower = m * power(q, (e - 2) as nat);
        assert(lo == q * lower) by (nonlinear_arith)
            requires
                lo == m * (q * power(q, (e - 2) as nat)),
                lower == m * power(q, (e - 2) as nat),
        ;
        if lower % d1 == 0 {
            let j = lemma_quotient(lower, d1);
            assert(lo == d * j) by (nonlinear_arith)
                requires
                    lo == q * lower,
                    lower == d1 * j,
                    d == q * d1,
            ;
            lemma_multiple(d, j, lo);
        }
        let c = lemma_full_power(m, q, (e - 1) as nat, d1);
        assert(d == power(q, e) * c) by (nonlinear_arith)
            requires
                d == q * d1,
                d1 == power(q, (e - 1) as nat) * c,
                power(q, e) == q * power(q, (e - 1) as nat),
        ;
        c
    }
}

/// Multiplying by one more power of a prime that does not divide `m` adds
/// as many divisors as `m` has.
pub proof fn lemma_divisors_step(m: nat, q: nat, e: nat)
    requires
        is_prime(q),
        m >= 1,
        e >= 1,
        m % q != 0,
    ensures
        divisor_count(m * power(q, e)) == divisor_count(m * power(q, (e - 1) as nat))
            + divisor_count(m),
{
    let w = power(q, e);
    let v = power(q, (e - 1) as nat);
    let hi = m * w;
    let lo = m * v;
    crate::factors::lemma_power_bounds(q, e);
    crate::factors::lemma_power_bounds(q, (e - 1) as nat);
    assert(hi == q * lo && lo >= 1 && hi >= 1 && w == q * v) by (nonlinear_arith)
        requires
            w == q * v,
            hi == m * w,
            lo == m * v,
            m >= 1,
            v >= 1,
            q >= 2,
    ;
    let f = |x: nat| w * x;
    let scaled = divisors(m).map(f);
    let all = divisors(lo) + scaled;
    lemma_divisors_finite(m);
    lemma_divisors_finite(lo);
    lemma_divisors_finite(hi);
    assert forall|x1: nat, x2: nat|
        divisors(m).contains(x1) && divisors(m).contains(x2) && #[trigger] f(x1) == #[trigger] f(
            x2,
        ) implies x1 == x2 by {
        assert(x1 == x2) by (nonlinear_arith)
            requires
                w * x1 == w * x2,
                w >= 1,
        ;
    }
    vstd::set_lib::lemma_map_size(divisors(m), scaled, f);
    assert forall|d: nat| divisors(hi).contains(d) implies all.contains(d) by {
        if lo % d == 0 {
            let k = lemma_quotient(lo, d);
        } else {
            let c = lemma_full_power(m, q, e, d);
            let k = lemma_quotient(m, c);
            assert(divisors(m).contains(c));
            assert(f(c) == d);
            assert(scaled.contains(d));
        }
    }
    assert forall|d: nat| all.contains(d) implies divisors(hi).contains(d) by {
        if divisors(lo).contains(d) {
            lemma_multiple(lo, q, hi);
            crate::factors::lemma_divides_transitive(hi, lo, d);
            let k = lemma_quotient(hi, d);
        } else {
            let c = choose|c: nat| divisors(m).contains(c) && f(c) == d;
            let k = lemma_quotient(m, c);
            assert(hi == d * k && d >= 1) by (nonlinear_arith)
                requires
                    hi == m * w,
                    m == c * k,
                    d == w * c,
                    w >= 1,
                    c >= 1,
            ;
            lemma_multiple(d, k, hi);
            let j = lemma_quotient(hi, d);
        }
    }
    assert(all =~= divisors(hi));
    assert forall|d: nat| divisors(lo).contains(d) && scaled.contains(d) implies false by {
        let c = choose|c: nat| divisors(m).contains(c) && f(c) == d;
        let k = lemma_quotient(lo, d);
        assert(m == q * (c * k)) by (nonlinear_arith)
            requires
                lo == m * v,
                lo == d * k,
                d == w * c,
                w == q * v,
                v >= 1,
        ;
        lemma_multiple(q, c * k, m);
    }
    assert(divisors(lo).disjoint(scaled));
    vstd::set_lib::lemma_set_disjoint_lens(divisors(lo), scaled);
}

/// A number times the `e`-th power of a prime that does not divide it has
/// `e` plus one times as many divisors.
pub proof fn lemma_divisors_of_multiple(m: nat, q: nat, e: nat)
    requires
        is_prime(q),
        m >= 1,
        m % q != 0,
    ensures
        divisor_count(m * power(q, e)) == divisor_count(m) * (e + 1),
    decreases e,
{
    if e == 0 {
        assert(m * power(q, 0) == m) by (nonlinear_arith)
            requires
                power(q, 0) == 1,
        ;
        assert(divisor_count(m) * 1 == divisor_count(m)) by (nonlinear_arith);
    } else {
        lemma_divisors_of_multiple(m, q, (e - 1) as nat);
        lemma_divisors_step(m, q, e);
        let c = divisor_count(m);
        assert(c * e + c == c * (e + 1)) by (nonlinear_arith);
    }
}

/// The product of every exponent plus one over a factorization of `n` is
/// the number of positive divisors of `n`.
pub proof fn lemma_divisor_count(s: Seq<(usize, u32)>, n: nat)
    requires
        is_factorization(s, n),
    ensures
        divisor_product(s) == divisor_count(n),
    decreases s.len(),
{
    if s.len() == 0 {
        assert(divisors(1) =~= Set::<nat>::empty().insert(1)) by {
            assert forall|d: nat| divisors(1).contains(d) implies d == 1 by {}
            assert(1nat % 1nat == 0);
        }
    } else {
        let t = s.drop_last();
        let m = product(t);
        let q = s.last().0 as nat;
        let e = s.last().1 as nat;
        lemma_drop_last(s, n);
        lemma_divisor_count(t, m);
        assert(is_prime(s[s.len() - 1].0 as nat));
        assert forall|j: int| 0 <= j < t.len() implies #[trigger] t[j].0 >= 1 by {
            assert(is_prime(t[j].0 as nat));
        }
        crate::factors::lemma_product_positive(t);
        if m % q == 0 {
            let i = lemma_prime_in_factorization(t, m, q);
            assert(s[i].0 < s[s.len() - 1].0);
        }
        lemma_divisors_of_multiple(m, q, e);
    }
}

/// For every number, the product of every exponent plus one over its
/// factorization is the number of its positive divisors.
pub proof fn lemma_factorization_counts_divisors(n: nat)
    requires
        1 <= n < 0x4000_0000_0000_0000,
        n <= usize::MAX,
    ensures
        divisor_product(factorization(n)) == divisor_count(n),
{
    lemma_factorization(n);
    lemma_divisor_count(factorization(n), n);
}

} // verus!
