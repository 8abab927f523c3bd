use tasks_rust::primes::{is_prime, is_prime_checked, primes_in_stride};

#[test]
fn small_numbers_are_classified() {
    let primes: Vec<u32> = (0..50).filter(|&n| is_prime(n)).collect();
    assert_eq!(primes, vec![2, 3, 5, 7, 11, 13, 17, 19, 23, 29, 31, 37, 41, 43, 47]);
}

#[test]
fn squares_of_primes_are_composite() {
    assert!(!is_prime(9));
    assert!(!is_prime(25));
    assert!(!is_prime(49));
    assert!(is_prime(65521));
    assert!(!is_prime(4294967295));
}

#[test]
fn large_primes_overflow_the_check() {
    assert_eq!(is_prime_checked(4294967291), None);
    assert_eq!(is_prime_checked(4294967295), Some(false));
    assert_eq!(is_prime_checked(4294836225), Some(false));
    assert_eq!(is_prime_checked(2147483647), Some(true));
}

#[test]
fn one_worker_finds_all_primes() {
    assert_eq!(primes_in_stride(0, 30, 0, 1), Some(vec![2, 3, 5, 7, 11, 13, 17, 19, 23, 29]));
    assert_eq!(primes_in_stride(30, 10, 0, 1), Some(vec![]));
}

#[test]
fn workers_split_the_range() {
    let start = 10u32;
    let stop = 60u32;
    let workers = 4u32;
    let mut all: Vec<u32> = Vec::new();
    for i in 0..workers {
        let found = primes_in_stride(start, stop, i, workers).unwrap();
        for p in &found {
            assert_eq!((p - start) % workers, i);
        }
        all.extend(found);
    }
    all.sort();
    let expected: Vec<u32> = (start..stop).filter(|&n| is_prime(n)).collect();
    assert_eq!(all, expected);
}

#[test]
fn stride_aborts_on_overflow() {
    assert_eq!(primes_in_stride(u32::MAX, u32::MAX, 1, 1), None);
    assert_eq!(primes_in_stride(4294967290, 4294967295, 0, 1), None);
    assert_eq!(primes_in_stride(4294836225, 4294836226, 0, 1), Some(vec![]));
}
