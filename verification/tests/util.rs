use atracdenc_core::util::{calc_median, decimal, div8_ceil, get_first_set_bit, swap_array};

#[test]
fn swap_array_test() {
    let mut arr = [0.0_f32, 1.0, 2.0, 3.0, 4.0, 5.0, 6.0, 7.0];
    swap_array(&mut arr);
    for i in 0..8 {
        assert!((i as f32 - arr[7 - i]).abs() < 0.000_000_000_001);
    }
}

#[test]
fn swap_array_keeps_the_middle() {
    let mut arr = [1, 2, 3];
    swap_array(&mut arr);
    assert_eq!([3, 2, 1], arr);
    let mut empty: [u8; 0] = [];
    swap_array(&mut empty);
}

#[test]
fn get_first_set_bit_test() {
    assert_eq!(1, get_first_set_bit(2));
    assert_eq!(1, get_first_set_bit(3));
    assert_eq!(2, get_first_set_bit(4));
    assert_eq!(2, get_first_set_bit(5));
    assert_eq!(2, get_first_set_bit(6));
    assert_eq!(2, get_first_set_bit(7));
    assert_eq!(3, get_first_set_bit(8));
    assert_eq!(3, get_first_set_bit(9));
    assert_eq!(3, get_first_set_bit(10));
    assert_eq!(0, get_first_set_bit(0));
}

#[test]
fn get_first_set_bit_of_the_largest() {
    assert_eq!(31, get_first_set_bit(u32::MAX));
    assert_eq!(0, get_first_set_bit(1));
}

#[test]
fn div8_ceil_rounds_up() {
    assert_eq!(1, div8_ceil(1));
    assert_eq!(1, div8_ceil(8));
    assert_eq!(2, div8_ceil(9));
}

#[test]
fn decimal_numbers() {
    assert_eq!("0", decimal(0));
    assert_eq!("10", decimal(10));
    assert_eq!("4294967295", decimal(u32::MAX));
}

#[test]
fn median_is_the_lower_middle() {
    assert_eq!(2, calc_median(&[3, 1, 2]));
    assert_eq!(-1, calc_median(&[7, -1, 4, -5]));
    assert_eq!(9, calc_median(&[9]));
}

#[test]
fn extras_from_plan() {
    assert_eq!(1, div8_ceil(1));
    assert_eq!(1, div8_ceil(8));
    assert_eq!(2, div8_ceil(9));
    let keys = [3.0_f32, 1.0, 2.0].map(|x| x.to_bits() as i32);
    assert_eq!(2.0, f32::from_bits(calc_median(&keys) as u32));
}
