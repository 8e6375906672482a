use decimals::muladd;

#[test]
fn muladd_basic_test() {
    let mcand = [3, 2, 1, 0, 0];
    let mut sum = [0; 5];

    let len = muladd(&mcand[0..3], 3, &mut sum, 0);

    assert_eq!([9, 6, 3, 0, 0], sum);
    assert_eq!(3, len);
}

#[test]
fn offset_test() {
    let mcand = [1, 1, 1, 0, 0];
    let mut sum = [1, 1, 1, 0, 0];

    let len = muladd(&mcand[0..3], 3, &mut sum, 1);
    assert_eq!([1, 4, 4, 3, 0], sum);
    assert_eq!(4, len);
}

#[test]
fn len_test() {
    let mcand = [1, 1, 1, 0, 0, 0];
    let mut sum = [9, 9, 9, 0, 0, 0];

    let len = muladd(&mcand[0..3], 9, &mut sum, 1);

    assert_eq!([9, 8, 9, 0, 1, 0], sum);
    assert_eq!(5, len);
}

#[test]
fn multiplying_by_zero_changes_nothing() {
    let mcand = [7, 7];
    let mut sum = [4, 0, 0, 0];

    let len = muladd(&mcand, 0, &mut sum, 1);

    assert_eq!([4, 0, 0, 0], sum);
    assert_eq!(3, len);
}

#[test]
fn carry_runs_past_the_multiplicand() {
    let mcand = [9, 9];
    let mut sum = [0, 0, 9, 9, 0];

    let len = muladd(&mcand, 9, &mut sum, 0);

    // 99 * 9 + 9900 = 10791
    assert_eq!([1, 9, 7, 0, 1], sum);
    assert_eq!(5, len);
}
