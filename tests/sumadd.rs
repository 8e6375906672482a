use decimals::sumadd;

#[test]
fn sumadd_basic_test() {
    let off: usize = 0;
    let mut sum = [5; 1];
    let max_wr_ix = sumadd(4, &mut sum, off);

    assert_eq!(off, max_wr_ix);
    assert_eq!([9], sum);
}

#[test]
fn lib_offset_test() {
    let off: usize = 1;
    let mut sum = [0, 5];

    let max_wr_ix = sumadd(4, &mut sum, off);

    assert_eq!(off, max_wr_ix);
    assert_eq!([0, 9], sum);
}

#[test]
fn takeover_test() {
    let mut sum = [9, 4, 1];
    _ = sumadd(1, &mut sum, 0);

    assert_eq!([0, 5, 1], sum);
}

#[test]
fn wite_index_test() {
    let mut sum = [9, 9, 9, 9, 0, 0];
    let off = sumadd(1, &mut sum, 1);

    assert_eq!(4, off);
    assert_eq!([9, 0, 0, 0, 1, 0], sum);
}

#[test]
fn largest_addend() {
    let mut sum = [9, 9, 0];
    let off = sumadd(246, &mut sum, 0);

    // 99 + 246 = 345
    assert_eq!(2, off);
    assert_eq!([5, 4, 3], sum);
}

#[test]
fn adding_zero_writes_only_the_offset() {
    let mut sum = [3, 4, 5];
    let off = sumadd(0, &mut sum, 1);

    assert_eq!(1, off);
    assert_eq!([3, 4, 5], sum);
}
