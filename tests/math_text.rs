use polyglot_bridge::math::{fibonacci, gcd, is_prime, lcm, primes_up_to};
use polyglot_bridge::text::{count_char, hash_string, reverse_string};

#[test]
fn test_is_prime() {
    assert!(!is_prime(1));
    assert!(is_prime(2));
    assert!(is_prime(7));
    assert!(!is_prime(9));
}

#[test]
fn test_fibonacci() {
    assert_eq!(fibonacci(0), Some(0));
    assert_eq!(fibonacci(1), Some(1));
    assert_eq!(fibonacci(10), Some(55));
}

#[test]
fn test_gcd() {
    assert_eq!(gcd(48, 18), 6);
    assert_eq!(gcd(100, 50), 50);
}

#[test]
fn fibonacci_limit() {
    assert_eq!(fibonacci(93), Some(12200160415121876738));
    assert_eq!(fibonacci(94), None);
}

#[test]
fn gcd_lcm_edges() {
    assert_eq!(gcd(0, 7), 7);
    assert_eq!(gcd(7, 0), 7);
    assert_eq!(lcm(4, 6), 12);
    assert_eq!(lcm(0, 6), 0);
}

#[test]
fn primes_and_large_prime() {
    assert_eq!(primes_up_to(30), vec![2, 3, 5, 7, 11, 13, 17, 19, 23, 29]);
    assert_eq!(primes_up_to(1), Vec::<u32>::new());
    assert!(is_prime(1_000_000_007));
    assert!(!is_prime(1_000_000_007 * 3));
    assert!(!is_prime(25));
}

#[test]
fn text_helpers() {
    assert_eq!(count_char("banana", 'a'), 3);
    assert_eq!(count_char("", 'a'), 0);
    assert_eq!(reverse_string("héllo"), "olléh");
    assert_eq!(hash_string(""), 2166136261);
    assert_eq!(hash_string("a"), 0xe40c292c);
}
