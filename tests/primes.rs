use fdnverb::primes::{closest_prime, is_prime, primes_dist};
use fdnverb::M;

fn naive_prime(n: usize) -> bool {
    n >= 2 && (2..n).all(|d| n % d != 0)
}

#[test]
fn primes() {
    let p = fdnverb::primes::primes::<M>(100, 3);
    println!("{:?}", p);
    assert_eq!(&p[..6], &[101, 113, 139, 163, 181, 199]);
    let all: Vec<usize> = (100..2000).filter(|&n| naive_prime(n)).collect();
    for (j, &q) in p.iter().enumerate() {
        assert_eq!(q, all[j * 4]);
    }
}

#[test]
fn primes_without_skipping() {
    let p = fdnverb::primes::primes::<5>(0, 0);
    assert_eq!(p, [2, 3, 5, 7, 11]);
}

#[test]
fn is_prime_small_values() {
    assert!(!is_prime(0));
    assert!(!is_prime(1));
    assert!(is_prime(2));
    assert!(is_prime(3));
    assert!(!is_prime(4));
    assert!(is_prime(5));
}

#[test]
fn is_prime_matches_trial_division() {
    for n in 0..3000 {
        assert_eq!(is_prime(n), naive_prime(n), "n = {}", n);
    }
}

#[test]
fn is_prime_squares_near_powers_of_two() {
    for p in [2usize, 3, 5, 7, 11, 13, 31, 61, 127, 251, 509, 1021, 65521] {
        assert!(is_prime(p));
        assert!(!is_prime(p * p), "{} squared", p);
    }
    assert!(!is_prime(25));
    assert!(!is_prime(121));
    assert!(is_prime(65537));
    assert!(!is_prime(65535));
    assert!(is_prime((1 << 16) + 3));
    assert!(!is_prime((1 << 16) + 5));
    assert!(is_prime(2147483647));
}

#[test]
fn closest_prime_below_two_is_two() {
    assert_eq!(closest_prime(0, 1), Some(2));
    assert_eq!(closest_prime(7, 5), Some(2));
    assert_eq!(closest_prime(3, 2), Some(2));
    assert_eq!(closest_prime(2, 1), Some(2));
}

#[test]
fn closest_prime_breaks_ties_downward() {
    assert_eq!(closest_prime(4, 1), Some(3));
    assert_eq!(closest_prime(9, 1), Some(7));
    assert_eq!(closest_prime(50, 1), Some(47));
}

#[test]
fn closest_prime_fractions() {
    assert_eq!(closest_prime(9, 2), Some(5));
    assert_eq!(closest_prime(7, 2), Some(3));
    assert_eq!(closest_prime(401, 100), Some(5));
    assert_eq!(closest_prime(399, 100), Some(3));
    assert_eq!(closest_prime(100, 1), Some(101));
    assert_eq!(closest_prime(24, 1), Some(23));
}

#[test]
fn closest_prime_is_nearest_over_a_range() {
    for num in 0u64..600 {
        let p = closest_prime(num, 3).unwrap();
        assert!(naive_prime(p));
        let d = |q: usize| (q as i64 * 3 - num as i64).abs();
        for q in (2..300).filter(|&q| naive_prime(q)) {
            assert!(d(p) < d(q) || (d(p) == d(q) && p <= q), "num = {}, p = {}, q = {}", num, p, q);
        }
    }
}

#[test]
fn closest_prime_without_room_above() {
    assert_eq!(closest_prime(u64::MAX, 1), None);
}

#[test]
fn primes_dist_linear_ramp_is_sorted() {
    let targets: Vec<u64> = (1..=32u64).map(|i| i * 1000 * 16).collect();
    let p = primes_dist(&targets, 16).unwrap();
    assert_eq!(p.len(), 32);
    assert_eq!(p[0], 997);
    assert_eq!(p[1], 1999);
    for w in p.windows(2) {
        assert!(w[0] <= w[1]);
    }
    for &q in &p {
        assert!(naive_prime(q));
    }
}

#[test]
fn primes_dist_equal_targets_collapse() {
    let p = primes_dist(&vec![40, 40, 40], 4).unwrap();
    assert_eq!(p, vec![11, 11, 11]);
}

#[test]
fn primes_dist_fails_without_room_above() {
    assert_eq!(primes_dist(&vec![10, u64::MAX], 1), None);
    assert_eq!(primes_dist(&vec![], 1), Some(vec![]));
}
