use decimals::ones;

#[test]
fn ones_basic_test() {
    let num = 9;
    let mut takeover = 0;

    assert_eq!(9, ones(num, &mut takeover));
    assert_eq!(0, takeover);
}

#[test]
fn split_test() {
    let num = 9;
    let mut takeover = 3;

    assert_eq!(2, ones(num, &mut takeover));
    assert_eq!(1, takeover);
}

#[test]
fn maximum_test() {
    let num = 246;
    let mut takeover = 9;

    assert_eq!(5, ones(num, &mut takeover));
    assert_eq!(25, takeover);
}

#[test]
fn exact_ten_carries_one() {
    let mut takeover = 1;

    assert_eq!(0, ones(9, &mut takeover));
    assert_eq!(1, takeover);
}
