use par_bench::primes::{find_primes_parallel, find_primes_serial, is_prime};

#[test]
fn small_numbers_are_not_prime() {
    assert!(!is_prime(0));
    assert!(!is_prime(1));
    assert!(is_prime(2));
    assert!(is_prime(3));
    assert!(!is_prime(4));
    assert!(!is_prime(9));
    assert!(!is_prime(25));
    assert!(is_prime(97));
}

#[test]
fn larger_primes_and_composites() {
    assert!(is_prime(7919));
    assert!(is_prime(1_000_000_007));
    assert!(is_prime(4_294_967_291));
    assert!(!is_prime(4_294_967_297));
    assert!(!is_prime(1_000_000_007 * 3));
    assert!(!is_prime(65_521 * 65_521));
}

#[test]
fn primes_up_to_thirty() {
    assert_eq!(find_primes_serial(30), vec![2, 3, 5, 7, 11, 13, 17, 19, 23, 29]);
    assert_eq!(find_primes_parallel(30), vec![2, 3, 5, 7, 11, 13, 17, 19, 23, 29]);
}

#[test]
fn primes_edge_limits() {
    assert_eq!(find_primes_serial(0), Vec::<u64>::new());
    assert_eq!(find_primes_serial(1), Vec::<u64>::new());
    assert_eq!(find_primes_serial(2), vec![2]);
    assert_eq!(find_primes_parallel(0), Vec::<u64>::new());
    assert_eq!(find_primes_parallel(1), Vec::<u64>::new());
    assert_eq!(find_primes_parallel(2), vec![2]);
}

#[test]
fn parallel_primes_equal_serial() {
    for limit in 0..300u64 {
        assert_eq!(find_primes_parallel(limit), find_primes_serial(limit));
    }
    let serial = find_primes_serial(100_000);
    let parallel = find_primes_parallel(100_000);
    assert_eq!(serial.len(), 9592);
    assert_eq!(parallel, serial);
    assert!(parallel.windows(2).all(|w| w[0] < w[1]));
}
