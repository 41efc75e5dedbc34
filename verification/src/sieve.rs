use crate::bounds::{lemma_distinct_bound, lemma_divisor_product_le, lemma_divisor_product_prefix};
use crate::divisors::{divisor_count, lemma_factorization_counts_divisors};
use crate::factors::{
    bump, divisor_product, factorization, is_prime, lemma_exponent_bound, lemma_factorization,
    lemma_least_factor, lemma_prime_factorization, product,
};
use crate::primes::{
    find_prime_factor, is_prime_list, lemma_first_factor, lemma_primes_upto, primes_upto,
};
use crate::tiny_map::{
    has_key, lemma_lower_bound_range, lemma_put_sorted, lower_bound, put, TinyMap,
};
use vstd::prelude::*;

verus! {

/// The number of histogram buckets: one for each count of distinct primes
/// from one to ten.
pub const BUCKETS: usize = 10;

/// The product of the first eleven primes: the least number with more
/// distinct prime factors than the histogram has buckets.
pub const LIMIT: u64 = 200_560_490_130;

/// What the sieve derives for one number.
#[derive(Clone, Copy, Debug, PartialEq, Eq)]
pub struct NumProperties {
    pub number: u64,
    pub num_factors: u64,
    pub num_prime_factors: u64,
    pub basedness: u64,
}

/// All that the sieve has gathered for the numbers up to a maximum.
pub struct Sieve {
    /// One record for each number from one to the maximum, in order.
    pub num_properties: Vec<NumProperties>,
    /// The factorization of each number, indexed by the number.
    pub prime_factors: Vec<TinyMap>,
    /// The primes up to the maximum, ascending.
    pub primes: Vec<usize>,
    /// The numbers whose basedness exceeds that of every smaller number.
    pub based: Vec<(usize, u64)>,
    /// At `k`, how many numbers have `k + 1` distinct prime factors.
    pub histogram: Vec<u64>,
}

/// The number of divisors of `n`, by the product formula.
pub open spec fn factor_count_of(n: nat) -> nat {
    divisor_product(factorization(n))
}

/// The number of distinct primes that divide `n`.
pub open spec fn distinct_of(n: nat) -> nat {
    factorization(n).len()
}

/// The basedness of `n`: its count of distinct primes times the factor count
/// of the number before it.
pub open spec fn basedness_of(n: nat) -> nat {
    if n < 2 {
        0
    } else {
        distinct_of(n) * factor_count_of((n - 1) as nat)
    }
}

/// The record of `n`.
pub open spec fn properties_of(n: nat) -> NumProperties {
    NumProperties {
        number: n as u64,
        num_factors: factor_count_of(n) as u64,
        num_prime_factors: distinct_of(n) as u64,
        basedness: basedness_of(n) as u64,
    }
}

/// The basedness of the last record, or zero where there is none.
pub open spec fn last_basedness(r: Seq<(usize, u64)>) -> u64 {
    if r.len() == 0 {
        0
    } else {
        r.last().1
    }
}

/// The basedness records up to `n`: each number whose basedness exceeds that
/// of the record before it.
pub open spec fn based_upto(n: nat) -> Seq<(usize, u64)>
    decreases n,
{
    if n < 2 {
        Seq::empty()
    } else {
        let r = based_upto((n - 1) as nat);
        if basedness_of(n) > last_basedness(r) {
            r.push((n as usize, basedness_of(n) as u64))
        } else {
            r
        }
    }
}

/// How many numbers from two to `n` have exactly `k` distinct prime factors.
pub open spec fn count_with(k: nat, n: nat) -> nat
    decreases n,
{
    if n < 2 {
        0
    } else {
        count_with(k, (n - 1) as nat) + if distinct_of(n) == k { 1nat } else { 0nat }
    }
}

/// The sum of the counters.
pub open spec fn total(s: Seq<u64>) -> nat
    decreases s.len(),
{
    if s.len() == 0 {
        0
    } else {
        total(s.drop_last()) + s.last() as nat
    }
}

/// The number of buckets up to the last one that is not zero.
pub open spec fn used_buckets(s: Seq<u64>) -> nat
    decreases s.len(),
{
    if s.len() == 0 {
        0
    } else if s.last() != 0 {
        s.len()
    } else {
        used_buckets(s.drop_last())
    }
}

/// The divisor count of a number is between one and the number.
pub proof fn lemma_factor_count_le(n: nat)
    requires
        1 <= n < 0x4000_0000_0000_0000,
        n <= usize::MAX,
    ensures
        1 <= factor_count_of(n) <= n,
{
    lemma_factorization(n);
    let s = factorization(n);
    assert forall|j: int| 0 <= j < s.len() implies #[trigger] s[j].0 >= 2 by {
        assert(is_prime(s[j].0 as nat));
    }
    lemma_divisor_product_le(s);
}

/// No more numbers up to `n` have `k` distinct primes than there are numbers
/// from two to `n`.
pub proof fn lemma_count_with_le(k: nat, n: nat)
    ensures
        count_with(k, n) <= if n < 2 { 0 } else { n - 1 },
    decreases n,
{
    if n >= 2 {
        lemma_count_with_le(k, (n - 1) as nat);
    }
}

/// Raising one counter by one raises the sum by one.
pub proof fn lemma_total_update(s: Seq<u64>, k: int)
    requires
        0 <= k < s.len(),
        s[k] < u64::MAX,
    ensures
        total(s.update(k, (s[k] + 1) as u64)) == total(s) + 1,
    decreases s.len(),
{
    let t = s.update(k, (s[k] + 1) as u64);
    if k == s.len() - 1 {
        assert(t.drop_last() =~= s.drop_last());
    } else {
        assert(t.drop_last() =~= s.drop_last().update(k, (s[k] + 1) as u64));
        lemma_total_update(s.drop_last(), k);
    }
}

/// Counters that are all zero sum to zero.
pub proof fn lemma_total_zero(s: Seq<u64>)
    requires
        forall|k: int| 0 <= k < s.len() ==> s[k] == 0,
    ensures
        total(s) == 0,
    decreases s.len(),
{
    if s.len() > 0 {
        lemma_total_zero(s.drop_last());
    }
}

/// The basedness records are strictly increasing in number and in
/// basedness, and no record is of a number above `n`.
pub proof fn lemma_based_increasing(n: nat)
    requires
        n < LIMIT,
        n <= usize::MAX,
    ensures
        forall|a: int, b: int|
            0 <= a < b < based_upto(n).len() ==> based_upto(n)[a].0 < based_upto(n)[b].0
                && based_upto(n)[a].1 < based_upto(n)[b].1,
        forall|a: int| 0 <= a < based_upto(n).len() ==> 2 <= (#[trigger] based_upto(n)[a]).0 <= n,
    decreases n,
{
    if n >= 2 {
        lemma_based_increasing((n - 1) as nat);
        lemma_basedness_bound(n);
        let r = based_upto((n - 1) as nat);
        let t = based_upto(n);
        assert forall|a: int, b: int| 0 <= a < b < t.len() implies t[a].0 < t[b].0 && t[a].1
            < t[b].1 by {
            if b < r.len() {
                assert(r[a].0 < r[b].0 && r[a].1 < r[b].1);
            } else {
                assert(r[a].0 <= n - 1);
                if a < r.len() - 1 {
                    assert(r[a].1 < r[r.len() - 1].1);
                }
            }
        }
        assert forall|a: int| 0 <= a < t.len() implies 2 <= (#[trigger] t[a]).0 <= n by {
            if a < r.len() {
                assert(2 <= r[a].0 <= n - 1);
            }
        }
    }
}

/// The basedness of a number below the limit is at most ten times the
/// number before it.
pub proof fn lemma_basedness_bound(n: nat)
    requires
        2 <= n < LIMIT,
        n <= usize::MAX,
    ensures
        1 <= distinct_of(n) <= BUCKETS,
        basedness_of(n) <= 10 * (n - 1),
{
    lemma_factorization(n);
    lemma_distinct_bound(factorization(n), n);
    lemma_factor_count_le((n - 1) as nat);
    let c = distinct_of(n);
    let f = factor_count_of((n - 1) as nat);
    assert(c * f <= 10 * (n - 1)) by (nonlinear_arith)
        requires
            c <= 10,
            f <= n - 1,
    ;
    if factorization(n).len() == 0 {
        assert(product(factorization(n)) == 1);
    }
}

/// The factorization that has one more factor `p` than `smaller`: a copy
/// with the exponent of `p` raised by one, or with `p` entered at exponent
/// one.
pub fn with_factor(smaller: &TinyMap, p: usize) -> (r: TinyMap)
    requires
        smaller.wf(),
        forall|j: int| 0 <= j < smaller@.len() ==> smaller@[j].1 < u32::MAX,
    ensures
        r@ == bump(smaller@, p),
        r.wf(),
{
    let mut m = smaller.clone();
    proof {
        lemma_lower_bound_range(m@, p);
        let i = lower_bound(m@, p);
        if has_key(m@, p) {
            assert(bump(m@, p) == put(m@, p, (m@[i].1 + 1) as u32));
        } else {
            assert(bump(m@, p) == put(m@, p, 1u32));
        }
        lemma_put_sorted(m@, p, 1u32);
        if has_key(m@, p) {
            lemma_put_sorted(m@, p, (m@[i].1 + 1) as u32);
        }
    }
    let raise = |k: u32| -> (r: u32)
        requires
            k < u32::MAX,
        ensures
            r == k + 1,
        { k + 1 };
    let _ = m.entry(p).and_modify(raise).or_insert(1);
    m
}

/// The divisor function of the number that `map` factorizes: the product of
/// every exponent plus one.
pub fn factor_count(map: &TinyMap) -> (r: u64)
    requires
        divisor_product(map@) <= u64::MAX,
    ensures
        r == divisor_product(map@),
{
    let exps = map.values();
    let n: usize = exps.len();
    let mut acc: u64 = 1;
    let mut k: usize = 0;
    assert(map@.take(0) =~= Seq::<(usize, u32)>::empty());
    while k < n
        invariant
            n == map@.len(),
            exps@.len() == n,
            forall|j: int| 0 <= j < n ==> exps@[j] == map@[j].1,
            k <= n,
            acc == divisor_product(map@.take(k as int)),
            divisor_product(map@) <= u64::MAX,
        decreases n - k,
    {
        proof {
            lemma_divisor_product_prefix(map@, k as int);
            lemma_divisor_product_prefix(map@, k + 1);
        }
        let e: u32 = exps[k];
        acc = acc * (e as u64 + 1);
        k += 1;
    }
    assert(map@.take(n as int) =~= map@);
    acc
}

/// The histogram as pairs of a count of distinct primes and the number of
/// numbers that have it, without the zero buckets at the end.
pub fn trim_histogram(histogram: &Vec<u64>) -> (r: Vec<(usize, u64)>)
    ensures
        r@.len() == used_buckets(histogram@),
        forall|k: int| 0 <= k < r@.len() ==> r@[k] == ((k + 1) as usize, histogram@[k]),
{
    let mut n: usize = histogram.len();
    assert(histogram@.take(n as int) =~= histogram@);
    while n > 0 && histogram[n - 1] == 0
        invariant
            n <= histogram@.len(),
            used_buckets(histogram@) == used_buckets(histogram@.take(n as int)),
        decreases n,
    {
        assert(histogram@.take(n as int).drop_last() =~= histogram@.take(n - 1));
        n -= 1;
    }
    assert(used_buckets(histogram@.take(n as int)) == n);
    let mut out: Vec<(usize, u64)> = Vec::new();
    let mut k: usize = 0;
    while k < n
        invariant
            k <= n <= histogram@.len(),
            out@.len() == k,
            forall|j: int| 0 <= j < k ==> out@[j] == ((j + 1) as usize, histogram@[j]),
        decreases n - k,
    {
        out.push((k + 1, histogram[k]));
        k += 1;
    }
    out
}

impl Sieve {
    /// The last number that the sieve has dealt with.
    pub open spec fn reached(&self) -> nat {
        (self.prime_factors@.len() - 1) as nat
    }

    /// Each table holds what belongs to the numbers up to the last one dealt
    /// with: their records and factorizations, the primes among them, their
    /// basedness records, and the histogram of their distinct-prime counts.
    pub open spec fn wf(&self) -> bool {
        let n = self.reached();
        &&& self.prime_factors@.len() == n + 1
        &&& 1 <= n < LIMIT
        &&& n <= usize::MAX
        &&& self.num_properties@.len() == n
        &&& forall|j: int|
            1 <= j <= n ==> self.num_properties@[j - 1] == #[trigger] properties_of(j as nat)
        &&& forall|j: int|
            0 <= j <= n ==> (#[trigger] self.prime_factors@[j])@ == factorization(j as nat)
        &&& self.primes@ == primes_upto(n)
        &&& self.based@ == based_upto(n)
        &&& self.histogram@.len() == BUCKETS
        &&& forall|k: int|
            0 <= k < BUCKETS ==> #[trigger] self.histogram@[k] == count_with((k + 1) as nat, n)
        &&& total(self.histogram@) == n - 1
    }

    /// The sieve before its first step: the number one is seeded with one
    /// factor, no prime factor and no basedness, and counts in no bucket.
    pub fn new() -> (r: Self)
        ensures
            r.wf(),
            r.reached() == 1,
    {
        let mut num_properties: Vec<NumProperties> = Vec::new();
        let mut prime_factors: Vec<TinyMap> = Vec::new();
        let mut histogram: Vec<u64> = Vec::new();
        let mut b: usize = 0;
        while b < BUCKETS
            invariant
                b <= BUCKETS,
                histogram@.len() == b,
                forall|k: int| 0 <= k < b ==> histogram@[k] == 0,
            decreases BUCKETS - b,
        {
            histogram.push(0);
            b += 1;
        }
        num_properties.push(
            NumProperties { number: 1, num_factors: 1, num_prime_factors: 0, basedness: 0 },
        );
        prime_factors.push(TinyMap::new());
        prime_factors.push(TinyMap::new());
        proof {
            lemma_total_zero(histogram@);
            assert forall|k: int| 0 <= k < BUCKETS implies histogram@[k] == count_with(
                (k + 1) as nat,
                1,
            ) by {}
            assert(num_properties@[0] == properties_of(1));
        }
        Sieve { num_properties, prime_factors, primes: Vec::new(), based: Vec::new(), histogram }
    }

    /// Deals with the next number: finds its smallest prime factor among the
    /// primes known, derives its factorization from that of the quotient or
    /// records it as a new prime, and enters its record, its histogram count
    /// and, where its basedness exceeds the last record, a new record.
    pub fn step(&mut self)
        requires
            old(self).wf(),
            old(self).reached() + 1 < LIMIT,
            old(self).reached() < usize::MAX,
        ensures
            final(self).wf(),
            final(self).reached() == old(self).reached() + 1,
    {
        let i: usize = self.prime_factors.len();
        proof {
            lemma_primes_upto((i - 1) as nat);
            lemma_first_factor(self.primes@, i, 0);
            lemma_least_factor(i as nat);
            lemma_factorization(i as nat);
            lemma_basedness_bound(i as nat);
            lemma_factor_count_le(i as nat);
            lemma_factor_count_le((i - 1) as nat);
            assert forall|j: int| 0 <= j < self.primes@.len() implies self.primes@[j] > 0 by {
                assert(is_prime(self.primes@[j] as nat));
            }
        }
        let found = find_prime_factor(&self.primes, i);
        let mut map: TinyMap;
        let num_factors: u64;
        match found {
            Some(p) => {
                let m: usize = i / p;
                proof {
                    vstd::arithmetic::div_mod::lemma_fundamental_div_mod(i as int, p as int);
                    assert(i == p * m);
                    assert(1 <= m < i) by (nonlinear_arith)
                        requires
                            i == p * m,
                            p >= 2,
                            i >= 2,
                    ;
                    lemma_factorization(m as nat);
                    assert(self.prime_factors@[m as int]@ == factorization(m as nat));
                    assert forall|j: int|
                        0 <= j < factorization(m as nat).len() implies factorization(
                        m as nat,
                    )[j].1 < u32::MAX by {
                        lemma_exponent_bound(factorization(m as nat), m as nat, j);
                    }
                }
                map = with_factor(&self.prime_factors[m], p);
                num_factors = factor_count(&map);
            },
            None => {
                map = TinyMap::new();
                proof {
                    lemma_lower_bound_range(map@, i);
                    lemma_prime_factorization(i as nat);
                }
                map.insert(i, 1);
                self.primes.push(i);
                num_factors = 2;
            },
        }
        assert(map@ == factorization(i as nat));
        map.shrink_to_fit();
        let count: usize = map.len();
        let seen: u64 = self.histogram[count - 1];
        proof {
            lemma_count_with_le(count as nat, (i - 1) as nat);
            lemma_total_update(self.histogram@, count - 1);
        }
        self.histogram.set(count - 1, seen + 1);
        let before: u64 = self.num_properties[i - 2].num_factors;
        assert(self.num_properties@[i - 2] == properties_of((i - 1) as nat));
        assert(before == factor_count_of((i - 1) as nat));
        assert(count * before <= 10 * (i - 1)) by (nonlinear_arith)
            requires
                count <= 10,
                before <= i - 1,
        ;
        let basedness: u64 = (count as u64) * before;
        assert(basedness == basedness_of(i as nat));
        self.num_properties.push(
            NumProperties {
                number: i as u64,
                num_factors,
                num_prime_factors: count as u64,
                basedness,
            },
        );
        let last: u64 = if self.based.len() == 0 {
            0
        } else {
            self.based[self.based.len() - 1].1
        };
        if basedness > last {
            self.based.push((i, basedness));
        }
        self.prime_factors.push(map);
        assert(self.num_properties@[i - 1] == properties_of(i as nat));
    }
}

/// Runs the sieve over the numbers from two to `max`: for each, its
/// factorization from that of a smaller number, its record, the primes, the
/// histogram of distinct-prime counts and the basedness records.
pub fn sieve(max: usize) -> (out: Sieve)
    requires
        1 <= max < LIMIT,
        max < usize::MAX,
    ensures
        out.wf(),
        out.reached() == max,
        out.num_properties@.len() == max,
        forall|i: int|
            1 <= i <= max ==> out.num_properties@[i - 1] == #[trigger] properties_of(i as nat),
        forall|i: int|
            1 <= i <= max ==> out.num_properties@[i - 1].num_factors == #[trigger] divisor_count(
                i as nat,
            ),
        out.prime_factors@.len() == max + 1,
        forall|i: int|
            0 <= i <= max ==> (#[trigger] out.prime_factors@[i])@ == factorization(i as nat),
        out.primes@ == primes_upto(max as nat),
        is_prime_list(out.primes@, max as nat),
        out.based@ == based_upto(max as nat),
        forall|a: int, b: int|
            0 <= a < b < out.based@.len() ==> out.based@[a].0 < out.based@[b].0
                && out.based@[a].1 < out.based@[b].1,
        out.histogram@.len() == BUCKETS,
        forall|k: int|
            0 <= k < BUCKETS ==> #[trigger] out.histogram@[k] == count_with(
                (k + 1) as nat,
                max as nat,
            ),
        total(out.histogram@) == max - 1,
{
    let mut out = Sieve::new();
    let mut i: usize = 2;
    while i <= max
        invariant
            2 <= i <= max + 1,
            1 <= max < LIMIT,
            max < usize::MAX,
            out.wf(),
            out.reached() == i - 1,
        decreases max + 1 - i,
    {
        out.step();
        i += 1;
    }
    proof {
        lemma_primes_upto(max as nat);
        lemma_based_increasing(max as nat);
        assert forall|i: int| 1 <= i <= max implies out.num_properties@[i - 1].num_factors
            == #[trigger] divisor_count(i as nat) by {
            lemma_factorization_counts_divisors(i as nat);
            lemma_factor_count_le(i as nat);
            assert(out.num_properties@[i - 1] == properties_of(i as nat));
        }
    }
    out
}

} // verus!
