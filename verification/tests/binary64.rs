use amount_conversion::binary64::Binary64;

fn hd(x: f64) -> Binary64 {
    Binary64::from_bits(x.to_bits())
}

fn numbers() -> Vec<f64> {
    vec![
        0.0,
        -0.0,
        1.0,
        -1.0,
        0.01,
        5e-324,
        -5e-324,
        f64::MIN_POSITIVE,
        f64::MAX,
        f64::MIN,
        f64::INFINITY,
        f64::NEG_INFINITY,
        f64::NAN,
        -f64::NAN,
        f64::from_bits(0x7ff0_0000_0000_0001),
    ]
}

#[test]
fn bits_go_in_and_out_unchanged() {
    for bits in [0u64, 1, 0x3ff0_0000_0000_0000, 0x7ff8_0000_0000_0000, u64::MAX] {
        assert_eq!(Binary64::from_bits(bits).to_bits(), bits);
        assert_eq!(Binary64::from_bits(bits).bits, bits);
    }
}

#[test]
fn numbers_are_equal_as_the_hardware_has_them() {
    for left in numbers() {
        for right in numbers() {
            assert_eq!(hd(left) == hd(right), left == right, "{left:e} == {right:e}");
        }
    }
}

#[test]
fn not_a_number_equals_nothing() {
    assert!(hd(f64::NAN) != hd(f64::NAN));
    assert!(hd(f64::NAN) != hd(0.0));
}

#[test]
fn the_two_zeros_are_equal() {
    assert!(hd(0.0) == hd(-0.0));
    assert_ne!(hd(0.0).to_bits(), hd(-0.0).to_bits());
}

#[test]
fn ratio_rounds_to_the_nearest_number() {
    assert_eq!(Binary64::ratio(1, 3).to_bits(), 0x3fd5_5555_5555_5555);
    assert_eq!(Binary64::ratio(2, 3).to_bits(), 0x3fe5_5555_5555_5555);
    assert_eq!(Binary64::ratio(-1, 10).to_bits(), 0xbfb9_9999_9999_999a);
    assert_eq!(Binary64::ratio(i32::MIN, 1).to_bits(), 0xc1e0_0000_0000_0000);
    assert_eq!(Binary64::ratio(0, 7).to_bits(), 0);
}

#[test]
fn times_rounds_to_the_nearest_number() {
    assert_eq!(hd(0.01).times(100).to_bits(), 1.0_f64.to_bits());
    assert_eq!(hd(0.29).times(100).to_bits(), 0x403c_ffff_ffff_ffff);
    assert_eq!(hd(-0.0).times(1000).to_bits(), 0x8000_0000_0000_0000);
    assert_eq!(hd(f64::MAX).times(2).to_bits(), f64::INFINITY.to_bits());
    assert_eq!(hd(f64::MIN).times(2).to_bits(), f64::NEG_INFINITY.to_bits());
    assert_eq!(hd(5e-324).times(1000).to_bits(), 1000);
    assert_eq!(hd(f64::INFINITY).times(7).to_bits(), f64::INFINITY.to_bits());
}

#[test]
fn to_i32_cuts_the_fraction_off() {
    assert_eq!(hd(0.0).to_i32(), Some(0));
    assert_eq!(hd(-0.0).to_i32(), Some(0));
    assert_eq!(hd(0.75).to_i32(), Some(0));
    assert_eq!(hd(-0.75).to_i32(), Some(0));
    assert_eq!(hd(28.999999999999996).to_i32(), Some(28));
    assert_eq!(hd(-28.999999999999996).to_i32(), Some(-28));
    assert_eq!(hd(5e-324).to_i32(), Some(0));
    assert_eq!(hd(2147483647.0).to_i32(), Some(i32::MAX));
    assert_eq!(hd(2147483647.5).to_i32(), None);
    assert_eq!(hd(-2147483648.0).to_i32(), Some(i32::MIN));
    assert_eq!(hd(-2147483648.5).to_i32(), None);
    assert_eq!(hd(1e300).to_i32(), None);
    assert_eq!(hd(f64::NAN).to_i32(), None);
    assert_eq!(hd(f64::INFINITY).to_i32(), None);
}
