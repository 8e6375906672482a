use decimals::{from_decimals, rem_crux, to_decimals, AsSlice, MAX_DEC_PLACES};

#[test]
fn rem_crux_basic_test() {
    let mut dividend = to_decimals(4444);
    let divisor = to_decimals(44);

    let end_len = rem_crux(&mut dividend.0, &divisor.0, 4, 2);
    assert_eq!(1, end_len);
    let mut proof = [0; MAX_DEC_PLACES];
    proof[2..=3].fill_with(|| 9);
    assert_eq!(&proof, &dividend.0);
}

#[test]
fn advanced_test() {
    let mut dividend = to_decimals(171);
    let divisor = to_decimals(22);

    let end_len = rem_crux(&mut dividend.0, &divisor.0, dividend.1, divisor.1);
    let rem = from_decimals(&dividend.0[..end_len]);
    assert_eq!(17, rem);
}

#[test]
fn lib_takeover_test() {
    let mut dividend = to_decimals(909);
    let divisor = to_decimals(9);

    let end_len = rem_crux(&mut dividend.0, &divisor.0, dividend.1, divisor.1);
    let rem = from_decimals(&dividend.0[..end_len]);
    assert_eq!(0, rem);
}

#[test]
fn longer_divisor_test1() {
    let mut dividend = to_decimals(69);
    let divisor = to_decimals(244);

    let end_len = rem_crux(&mut dividend.0, &divisor.0, 2, 3);
    assert_eq!(2, end_len);
    assert_eq!(&[5, 2], dividend.as_slice());
}

#[test]
fn longer_divisor_test2() {
    let mut dividend = to_decimals(69);
    let divisor = to_decimals(270);

    let end_len = rem_crux(&mut dividend.0, &divisor.0, dividend.1, divisor.1);
    let rem = from_decimals(&dividend.0[..end_len]);
    assert_eq!(69, rem);
}

#[test]
fn longer_divisor_test3() {
    let mut dividend = to_decimals(69);
    let divisor = to_decimals(269);

    let end_len = rem_crux(&mut dividend.0, &divisor.0, dividend.1, divisor.1);
    let rem = from_decimals(&dividend.0[..end_len]);
    assert_eq!(0, rem);
}

#[test]
fn subtrahend_larger_than_buffer_leaves_it() {
    let mut dividend = to_decimals(43);
    let divisor = to_decimals(57);

    let end_len = rem_crux(&mut dividend.0, &divisor.0, 2, 2);
    assert_eq!(2, end_len);
    assert_eq!(&[3, 4], &dividend.0[..2]);
}

#[test]
fn trims_high_zero_places() {
    let mut dividend = to_decimals(1005);
    let divisor = to_decimals(1000);

    let end_len = rem_crux(&mut dividend.0, &divisor.0, 4, 4);
    assert_eq!(1, end_len);
    assert_eq!(5, dividend.0[0]);
}
