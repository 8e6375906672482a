use decimals::prime_ck;

#[test]
fn lib_basic_test() {
    assert!(prime_ck(2));
}

#[test]
fn even_test() {
    assert_eq!(false, prime_ck(256));
}

#[test]
fn test_65521() {
    assert!(prime_ck(65521));
}

#[test]
fn test_49() {
    assert_eq!(false, prime_ck(49));
}

#[test]
fn lib_one_test() {
    assert_eq!(false, prime_ck(1));
}

#[test]
fn lib_zero_test() {
    assert_eq!(false, prime_ck(0));
}

#[test]
fn primality_agrees_with_full_trial_division() {
    for n in 2..=5000u16 {
        let by_trial = (2..n).all(|d| n % d != 0);
        assert_eq!(by_trial, prime_ck(n), "{}", n);
    }
}

#[test]
fn square_of_prime_is_not_prime() {
    assert_eq!(false, prime_ck(63001));
    assert_eq!(false, prime_ck(65025));
    assert!(prime_ck(251));
}
