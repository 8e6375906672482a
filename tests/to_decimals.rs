use decimals::{from_decimals, to_decimals, AsSlice, MAX_DEC_PLACES};

#[test]
fn to_decimals_basic_test() {
    let decimals = to_decimals(1);
    assert_eq!(1, decimals.1);
    let mut proof = [0; MAX_DEC_PLACES];
    proof[0] = 1;

    assert_eq!(&proof, &decimals.0);
}

#[test]
fn to_decimals_zero_test() {
    let decimals = to_decimals(0);
    assert_eq!(1, decimals.1);
    assert_eq!([0; MAX_DEC_PLACES], decimals.0);
}

#[test]
fn test_65535() {
    let decimals = to_decimals(65535);
    assert_eq!(5, decimals.1);
    assert_eq!([5, 3, 5, 5, 6], decimals.as_slice());
}

#[test]
fn largest_u128_takes_every_place() {
    let decimals = to_decimals(u128::MAX);
    assert_eq!(MAX_DEC_PLACES, decimals.1);
    assert_eq!(3, decimals.0[MAX_DEC_PLACES - 1]);
    assert_eq!(5, decimals.0[0]);
}

#[test]
fn round_trip_through_places() {
    let values = [0u128, 1, 9, 10, 99, 100, 101, 65535, 1_000_000_007, u64::MAX as u128, u128::MAX];
    for v in values {
        let decimals = to_decimals(v);
        assert_eq!(v, from_decimals(decimals.as_slice()));
    }
}

#[test]
fn places_are_canonical() {
    let decimals = to_decimals(1000);
    assert_eq!([0, 0, 0, 1], decimals.as_slice());
    for ix in decimals.1..MAX_DEC_PLACES {
        assert_eq!(0, decimals.0[ix]);
    }
}
