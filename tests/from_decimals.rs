use decimals::from_decimals;

#[test]
fn from_decimals_basic_test() {
    assert_eq!(1, from_decimals(&[1]));
}

#[test]
fn from_decimals_zero_test() {
    assert_eq!(0, from_decimals(&[0]));
}

#[test]
fn zero_place_test() {
    assert_eq!(101, from_decimals(&[1, 0, 1]));
}

#[test]
fn lib_test_65535() {
    assert_eq!(u16::MAX as u128, from_decimals(&[5, 3, 5, 5, 6]));
}

#[test]
fn leading_zeros_add_nothing() {
    let mut places = [0u8; 60];
    places[0] = 7;
    places[2] = 4;
    assert_eq!(407, from_decimals(&places));
}

#[test]
fn largest_u128_read_back() {
    let places = [
        5, 5, 4, 1, 1, 2, 8, 6, 7, 1, 3, 4, 7, 0, 6, 4, 7, 3, 3, 6, 4, 3, 6, 4, 8, 3, 9, 0, 2, 9,
        6, 6, 3, 2, 8, 2, 0, 4, 3,
    ];
    assert_eq!(u128::MAX, from_decimals(&places));
}
