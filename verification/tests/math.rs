use librualg::math::{gcd, is_simple, pow, pow_mod};

#[test]
fn test_gcd() {
    assert_eq!(gcd(24, 60), 12);
    assert_eq!(gcd(0, 7), 7);
    assert_eq!(gcd(3, 0), 3);
    assert_eq!(gcd(11, 11), 11);
    assert_eq!(gcd(0, 0), 0);
}

#[test]
fn test_pow() {
    assert_eq!(pow(1, 3), 1);
    assert_eq!(pow(0, 3), 0);
    assert_eq!(pow(2, 20), 1048576);
}

#[test]
fn test_fast_pow_mod() {
    assert_eq!(pow_mod(5, 100, 7), 2);
    assert_eq!(pow_mod(3, 90, 5), 4);
}

#[test]
fn test_is_simple() {
    assert_eq!(is_simple(157), true);
    assert_eq!(is_simple(39916800), false);
}
