use decimals::{pow, to_decimals, AsSlice};

#[test]
fn pow_basic_test() {
    let pow = pow(&[2], 3);

    assert_eq!(1, pow.1);
    assert_eq!(&[8], pow.as_slice());
}

#[test]
fn lib_advanced_test() {
    let decimals = to_decimals(u16::MAX as u128);
    let proof = [5, 2, 2, 6, 3, 8, 4, 9, 2, 4];
    let proof_len = proof.len();

    let pow = pow(&decimals.as_slice(), 2);

    assert_eq!(proof_len, pow.1);
    assert_eq!(proof, pow.as_slice());
}

#[test]
fn lib_advanced_test2() {
    let decimals = to_decimals(90);
    let proof = [
        0, 0, 0, 0, 0, 0, 0, 0, 0, 0, 0, 0, 0, 0, 0, 0, 0, 9, 6, 5, 6, 6, 6, 9, 9, 6, 1, 8, 1, 7,
        7, 6, 6, 1,
    ];
    let proof_len = proof.len();

    let pow = pow(decimals.as_slice(), 17);

    assert_eq!(proof_len, pow.1);
    assert_eq!(proof, pow.as_slice());
}

#[test]
fn lib_advanced_test3() {
    let decimals = to_decimals(1559);
    let proof = [1, 4, 9, 8, 8, 5, 4, 1, 4, 4, 5, 9, 2, 0, 4, 5, 8, 1, 8];

    let pow = pow(&decimals.as_slice(), 255);

    assert_eq!(815, pow.1);
    let pow = pow.0;
    for ix in 0..proof.len() {
        assert_eq!(proof[ix], pow[814 - ix]);
    }
}

#[test]
fn zero_power_test() {
    let pow = pow(&[0], 0);
    assert_eq!(1, pow.1);
    assert_eq!(&[1], pow.as_slice());
}

#[test]
fn one_power_test() {
    let decimals = to_decimals(3398);
    let decimals = &decimals.0[..decimals.1];
    let pow = pow(&decimals, 1);

    assert_eq!(4, pow.1);
    assert_eq!(decimals, pow.as_slice());
}

#[test]
fn power_of_zero_test() {
    let pow = pow(&[0], 255);

    assert_eq!(1, pow.1);
    assert_eq!(&[0], pow.as_slice());
}

#[test]
fn power_of_one_test() {
    let pow = pow(&[1], 255);

    assert_eq!(1, pow.1);
    assert_eq!(&[1], pow.as_slice());
}

#[test]
fn powers_match_native_arithmetic() {
    let cases: [(u128, u8); 8] = [(2, 64), (3, 80), (10, 38), (7, 45), (99, 19), (65535, 8), (12, 2), (5, 1)];
    for (b, e) in cases {
        let base = to_decimals(b);
        let expected = to_decimals(b.pow(e as u32));
        let got = pow(base.as_slice(), e);
        assert_eq!(expected.as_slice(), got.as_slice(), "{}^{}", b, e);
    }
}

#[test]
fn zero_power_of_any_base_is_one() {
    let base = to_decimals(987_654_321);
    let got = pow(base.as_slice(), 0);
    assert_eq!(&[1], got.as_slice());
}

#[test]
fn first_power_is_the_base() {
    let base = to_decimals(1_000_000_007);
    let got = pow(base.as_slice(), 1);
    assert_eq!(base.as_slice(), got.as_slice());
}

#[test]
fn powers_of_zero_and_one_for_every_exponent() {
    for e in 1..=255u8 {
        assert_eq!(&[0], pow(&[0], e).as_slice());
    }
    for e in 0..=255u8 {
        assert_eq!(&[1], pow(&[1], e).as_slice());
    }
}
