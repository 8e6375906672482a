use decimals::{pow, rem, to_decimals, AsSlice, AsSliceMut};

#[test]
fn rem_basic_test() {
    let mut dividend = to_decimals(65000);
    let divisor = to_decimals(5);

    let rem = rem(dividend.as_slice_mut(), divisor.as_slice());
    assert_eq!(0, rem);
}

#[test]
fn advanced_test1() {
    let mut dividend = to_decimals(65535);
    let divisor = to_decimals(277);

    let rem = rem(dividend.as_slice_mut(), divisor.as_slice());
    assert_eq!(163, rem);
}

#[test]
fn advanced_test2() {
    let mut dividend = to_decimals(65535);
    let divisor = to_decimals(27);

    let rem = rem(dividend.as_slice_mut(), divisor.as_slice());
    assert_eq!(6, rem);
}

#[test]
fn advanced_test3() {
    let mut dividend = to_decimals(65535);
    let divisor = to_decimals(69);

    let rem = rem(dividend.as_slice_mut(), divisor.as_slice());
    assert_eq!(54, rem);
}

#[test]
fn advanced_test4() {
    let mut dividend = to_decimals(65535);
    let divisor = to_decimals(65536);

    let rem = rem(dividend.as_slice_mut(), divisor.as_slice());
    assert_eq!(65535, rem);
}

#[test]
fn advanced_test5() {
    let mut dividend = to_decimals(65535);
    let divisor = to_decimals(65535);

    let rem = rem(dividend.as_slice_mut(), divisor.as_slice());
    assert_eq!(0, rem);
}

#[test]
fn advanced_test6() {
    let mut dividend = to_decimals(60_000);
    let divisor = to_decimals(6001);

    let rem = rem(dividend.as_slice_mut(), divisor.as_slice());
    assert_eq!(5991, rem);
}

#[test]
fn advanced_test7() {
    let mut dividend = to_decimals(123);
    let divisor = to_decimals(1234);

    let rem = rem(dividend.as_slice_mut(), divisor.as_slice());
    assert_eq!(123, rem);
}

#[test]
fn advanced_test8() {
    let mut dividend = to_decimals(65535);
    let divisor = to_decimals(6553);

    let rem = rem(dividend.as_slice_mut(), divisor.as_slice());
    assert_eq!(5, rem);
}

#[test]
fn advanced_test9() {
    let mut dividend = to_decimals(65000);
    let divisor = to_decimals(65);

    let rem = rem(dividend.as_slice_mut(), divisor.as_slice());
    assert_eq!(0, rem);
}

#[test]
fn lib_load_test() {
    let mut dividend = to_decimals(u128::MAX);
    let divisor = to_decimals(249);

    let rem = rem(dividend.as_slice_mut(), divisor.as_slice());
    assert_eq!(216, rem);
}

#[test]
fn remainder_matches_native_modulo() {
    let values = [0u128, 1, 7, 10, 99, 100, 1001, 65535, 123_456_789, 9_999_999_999, u64::MAX as u128];
    let divisors = [1u128, 2, 3, 9, 10, 11, 97, 100, 277, 6001, 65536, 1_000_003, u64::MAX as u128];
    for a in values {
        for b in divisors {
            let mut dividend = to_decimals(a);
            let divisor = to_decimals(b);
            let r = rem(dividend.as_slice_mut(), divisor.as_slice());
            assert_eq!(a % b, r, "{} % {}", a, b);
            assert!(r < b);
            assert_eq!(0, (a - r) % b);
        }
    }
}

#[test]
fn remainder_left_in_the_buffer() {
    let mut dividend = to_decimals(65535);
    let divisor = to_decimals(277);

    let r = rem(dividend.as_slice_mut(), divisor.as_slice());
    assert_eq!(163, r);
    assert_eq!([3, 6, 1], dividend.0[..3]);
}

#[test]
fn zero_dividend_and_unit_divisor() {
    let mut dividend = to_decimals(0);
    let divisor = to_decimals(7);
    assert_eq!(0, rem(dividend.as_slice_mut(), divisor.as_slice()));

    let mut dividend = to_decimals(987_654_321);
    let divisor = to_decimals(1);
    assert_eq!(0, rem(dividend.as_slice_mut(), divisor.as_slice()));
}

#[test]
fn remainder_of_a_long_power() {
    let seven = to_decimals(7);
    let big = pow(seven.as_slice(), 200);
    let mut big = pow(&big.0[..big.1], 2);
    assert_eq!(339, big.1);
    let divisor = to_decimals(1_000_003);
    let len = big.1;
    let r = rem(&mut big.0[..len], divisor.as_slice());
    assert_eq!(957771, r);
}

#[test]
fn remainder_of_the_largest_product() {
    let base = to_decimals(1559);
    let mut big = pow(base.as_slice(), 255);
    assert_eq!(815, big.1);
    let divisor = to_decimals(65521);
    let r = rem(&mut big.0[..815], divisor.as_slice());
    assert_eq!(6004, r);
}
