use scapegoat::{count_primes, is_prime};

#[test]
fn test_count_primes() {
    let list = [1, 2, 3, 4, 5, 6, 7, 8, 9, 10];
    assert_eq!(count_primes(&list), 4);
}

#[test]
fn test_is_prime() {
    assert!(is_prime(2));
    assert!(is_prime(3));
    assert!(is_prime(5));
    assert!(is_prime(23));
    assert!(is_prime(83));
    assert!(is_prime(31));
    assert!(!is_prime(1));
    assert!(!is_prime(10));
    assert!(!is_prime(300));
    assert!(!is_prime(65));
    assert!(!is_prime(74));
    assert!(!is_prime(96));
}

#[test]
fn count_primes_of_empty_list() {
    assert_eq!(count_primes(&[]), 0);
}

#[test]
fn zero_is_not_prime() {
    assert!(!is_prime(0));
}
