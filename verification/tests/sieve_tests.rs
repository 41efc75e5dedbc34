use based_num::primes::find_prime_factor;
use based_num::sieve::{
    factor_count, sieve, trim_histogram, with_factor, NumProperties, Sieve,
    BUCKETS, LIMIT,
};
use based_num::{TinyMap, TinyMapEntry};

fn count_divisors(n: u64) -> u64 {
    (1..=n).filter(|d| n % d == 0).count() as u64
}

fn is_prime(n: usize) -> bool {
    n >= 2 && (2..n).all(|d| n % d != 0)
}

fn pairs(map: &mut TinyMap, bound: usize) -> Vec<(usize, u32)> {
    let mut out = Vec::new();
    for k in 0..=bound {
        if let TinyMapEntry::Occupied(slot) = map.entry(k) {
            out.push(*slot);
        }
    }
    out
}

#[test]
fn limit_is_product_of_first_eleven_primes() {
    let primes: [u64; 11] = [2, 3, 5, 7, 11, 13, 17, 19, 23, 29, 31];
    assert_eq!(primes.iter().product::<u64>(), LIMIT);
    assert_eq!(BUCKETS, 10);
}

#[test]
fn sieve_of_ten_factor_counts() {
    let out = sieve(10);
    let counts: Vec<u64> = out.num_properties.iter().map(|p| p.num_factors).collect();
    assert_eq!(counts, vec![1, 2, 2, 3, 2, 4, 2, 4, 3, 4]);
    let numbers: Vec<u64> = out.num_properties.iter().map(|p| p.number).collect();
    assert_eq!(numbers, vec![1, 2, 3, 4, 5, 6, 7, 8, 9, 10]);
    let distinct: Vec<u64> = out.num_properties.iter().map(|p| p.num_prime_factors).collect();
    assert_eq!(distinct, vec![0, 1, 1, 1, 1, 2, 1, 1, 1, 2]);
}

#[test]
fn sieve_of_ten_factorizations() {
    let mut out = sieve(10);
    assert_eq!(out.prime_factors.len(), 11);
    let expected: Vec<Vec<(usize, u32)>> = vec![
        vec![],
        vec![],
        vec![(2, 1)],
        vec![(3, 1)],
        vec![(2, 2)],
        vec![(5, 1)],
        vec![(2, 1), (3, 1)],
        vec![(7, 1)],
        vec![(2, 3)],
        vec![(3, 2)],
        vec![(2, 1), (5, 1)],
    ];
    for i in 0..=10usize {
        assert_eq!(pairs(&mut out.prime_factors[i], 10), expected[i]);
    }
}

#[test]
fn sieve_of_ten_primes_and_histogram() {
    let out = sieve(10);
    assert_eq!(out.primes, vec![2, 3, 5, 7]);
    assert_eq!(out.histogram, vec![7, 2, 0, 0, 0, 0, 0, 0, 0, 0]);
    assert_eq!(trim_histogram(&out.histogram), vec![(1, 7), (2, 2)]);
}

#[test]
fn sieve_of_ten_basedness() {
    let out = sieve(10);
    let basedness: Vec<u64> = out.num_properties.iter().map(|p| p.basedness).collect();
    assert_eq!(basedness, vec![0, 1, 2, 2, 3, 4, 4, 2, 4, 6]);
    assert_eq!(out.based, vec![(2, 1), (3, 2), (5, 3), (6, 4), (10, 6)]);
    for i in 2..=10usize {
        let p = out.num_properties[i - 1];
        assert_eq!(p.basedness, p.num_prime_factors * out.num_properties[i - 2].num_factors);
    }
}

#[test]
fn sieve_of_one_has_only_the_seed() {
    let out = sieve(1);
    assert_eq!(
        out.num_properties,
        vec![NumProperties { number: 1, num_factors: 1, num_prime_factors: 0, basedness: 0 }]
    );
    assert_eq!(out.primes, Vec::<usize>::new());
    assert_eq!(out.based, Vec::<(usize, u64)>::new());
    assert_eq!(out.histogram, vec![0; 10]);
    assert_eq!(trim_histogram(&out.histogram), Vec::<(usize, u64)>::new());
    assert_eq!(out.prime_factors.len(), 2);
}

#[test]
fn sieve_of_two() {
    let out = sieve(2);
    assert_eq!(out.primes, vec![2]);
    assert_eq!(out.based, vec![(2, 1)]);
    assert_eq!(out.num_properties[1].num_factors, 2);
    assert_eq!(out.histogram[0], 1);
}

#[test]
fn factor_counts_match_divisor_counting() {
    let out = sieve(2000);
    for i in 1..=2000u64 {
        assert_eq!(out.num_properties[(i - 1) as usize].num_factors, count_divisors(i));
    }
}

#[test]
fn factorizations_multiply_back() {
    let mut out = sieve(3000);
    for i in 2..=3000usize {
        let f = pairs(&mut out.prime_factors[i], i);
        assert_eq!(f.len(), out.prime_factors[i].len());
        let mut n: usize = 1;
        for (p, e) in f.iter() {
            assert!(is_prime(*p));
            assert!(*e >= 1);
            n *= p.pow(*e);
        }
        assert_eq!(n, i);
        assert!(f.windows(2).all(|w| w[0].0 < w[1].0));
    }
}

#[test]
fn primes_are_exactly_the_primes() {
    let out = sieve(2000);
    let expected: Vec<usize> = (2..=2000usize).filter(|n| is_prime(*n)).collect();
    assert_eq!(out.primes, expected);
    assert_eq!(out.primes.len(), 303);
}

#[test]
fn histogram_sums_to_numbers_processed() {
    for max in [1usize, 2, 10, 97, 1000, 30030] {
        let out = sieve(max);
        assert_eq!(out.histogram.len(), 10);
        assert_eq!(out.histogram.iter().sum::<u64>(), (max - 1) as u64);
    }
}

#[test]
fn histogram_counts_distinct_primes() {
    let out = sieve(30030);
    for k in 0..10usize {
        let n = out.num_properties.iter().filter(|p| p.num_prime_factors == (k + 1) as u64).count();
        assert_eq!(out.histogram[k], n as u64);
    }
    assert_eq!(out.histogram[5], 1);
    assert_eq!(trim_histogram(&out.histogram).len(), 6);
}

#[test]
fn based_records_strictly_increase() {
    let out = sieve(5000);
    assert!(!out.based.is_empty());
    for w in out.based.windows(2) {
        assert!(w[0].0 < w[1].0);
        assert!(w[0].1 < w[1].1);
    }
    let mut best = 0u64;
    let mut expected = Vec::new();
    for p in out.num_properties.iter() {
        if p.basedness > best {
            best = p.basedness;
            expected.push((p.number as usize, p.basedness));
        }
    }
    assert_eq!(out.based, expected);
}

#[test]
fn find_prime_factor_takes_the_smallest() {
    let primes = vec![2usize, 3, 5, 7, 11, 13];
    assert_eq!(find_prime_factor(&primes, 15), Some(3));
    assert_eq!(find_prime_factor(&primes, 49), Some(7));
    assert_eq!(find_prime_factor(&primes, 30), Some(2));
    assert_eq!(find_prime_factor(&primes, 169), Some(13));
}

#[test]
fn find_prime_factor_stops_at_the_square_root() {
    let primes = vec![2usize, 3, 5, 7, 11, 13];
    assert_eq!(find_prime_factor(&primes, 17), None);
    assert_eq!(find_prime_factor(&primes, 2), None);
    assert_eq!(find_prime_factor(&primes, 3), None);
    assert_eq!(find_prime_factor(&primes, 13), None);
    assert_eq!(find_prime_factor(&vec![3usize, 2], 8), None);
    assert_eq!(find_prime_factor(&Vec::new(), 8), None);
    assert_eq!(find_prime_factor(&vec![usize::MAX], usize::MAX), None);
}

#[test]
fn with_factor_raises_or_enters() {
    let mut twelve = TinyMap::new();
    twelve.insert(2, 2);
    twelve.insert(3, 1);
    let mut a = with_factor(&twelve, 2);
    assert_eq!(pairs(&mut a, 10), vec![(2, 3), (3, 1)]);
    let mut b = with_factor(&twelve, 5);
    assert_eq!(pairs(&mut b, 10), vec![(2, 2), (3, 1), (5, 1)]);
    let mut c = with_factor(&TinyMap::new(), 7);
    assert_eq!(pairs(&mut c, 10), vec![(7, 1)]);
    assert_eq!(twelve.values(), vec![2, 1]);
}

#[test]
fn factor_count_is_product_of_exponents_plus_one() {
    let mut map = TinyMap::new();
    assert_eq!(factor_count(&map), 1);
    map.insert(2, 2);
    assert_eq!(factor_count(&map), 3);
    map.insert(3, 1);
    assert_eq!(factor_count(&map), 6);
    map.insert(5, 4);
    assert_eq!(factor_count(&map), 30);
}

#[test]
fn trim_histogram_drops_only_trailing_zeros() {
    assert_eq!(trim_histogram(&vec![1, 0, 2, 0, 0]), vec![(1, 1), (2, 0), (3, 2)]);
    assert_eq!(trim_histogram(&vec![0, 0, 0]), Vec::<(usize, u64)>::new());
    assert_eq!(trim_histogram(&Vec::new()), Vec::<(usize, u64)>::new());
    assert_eq!(trim_histogram(&vec![4, 5]), vec![(1, 4), (2, 5)]);
}

#[test]
fn new_sieve_holds_the_seed() {
    let state = Sieve::new();
    assert_eq!(
        state.num_properties,
        vec![NumProperties { number: 1, num_factors: 1, num_prime_factors: 0, basedness: 0 }]
    );
    assert_eq!(state.prime_factors.len(), 2);
    assert!(state.prime_factors[0].is_empty());
    assert!(state.prime_factors[1].is_empty());
    assert_eq!(state.primes, Vec::<usize>::new());
    assert_eq!(state.based, Vec::<(usize, u64)>::new());
    assert_eq!(state.histogram, vec![0; 10]);
}

#[test]
fn steps_take_one_number_each() {
    let mut state = Sieve::new();
    state.step();
    assert_eq!(state.num_properties.len(), 2);
    assert_eq!(
        state.num_properties[1],
        NumProperties { number: 2, num_factors: 2, num_prime_factors: 1, basedness: 1 }
    );
    assert_eq!(state.primes, vec![2]);
    state.step();
    state.step();
    assert_eq!(
        state.num_properties[3],
        NumProperties { number: 4, num_factors: 3, num_prime_factors: 1, basedness: 2 }
    );
    assert_eq!(state.primes, vec![2, 3]);
    assert_eq!(state.prime_factors[4].values(), vec![2]);
    assert_eq!(state.based, vec![(2, 1), (3, 2)]);
    assert_eq!(state.histogram[0], 3);
}

#[test]
fn steps_match_the_whole_run() {
    let whole = sieve(500);
    let mut state = Sieve::new();
    for _ in 2..=500 {
        state.step();
    }
    assert_eq!(state.num_properties, whole.num_properties);
    assert_eq!(state.primes, whole.primes);
    assert_eq!(state.based, whole.based);
    assert_eq!(state.histogram, whole.histogram);
    for i in 0..=500usize {
        assert_eq!(state.prime_factors[i].values(), whole.prime_factors[i].values());
    }
}

#[test]
fn exponents_of_powers_of_two() {
    let out = sieve(1024);
    assert_eq!(out.prime_factors[1024].values(), vec![10]);
    assert_eq!(out.num_properties[1023].num_factors, 11);
    assert_eq!(out.prime_factors[720].values(), vec![4, 2, 1]);
    assert_eq!(out.num_properties[719].num_factors, 30);
}
