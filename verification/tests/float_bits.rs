use rustgeomapping::data_types::float_bits::{eq_bits, gt_bits, is_nan_bits, le_bits, lt_bits, total_lt_bits, NAN, ZERO};
use rustgeomapping::data_types::heightmap::{
    CELL_MAX_START, CELL_MIN_START, EDGE_HIGH_THRESHOLD, EDGE_THRESHOLD, MAX_START, MIN_START,
};
use std::cmp::Ordering;

fn samples() -> Vec<f32> {
    vec![
        0.0,
        -0.0,
        1.0,
        -1.0,
        2.5,
        -2.5,
        f32::MIN_POSITIVE,
        -f32::MIN_POSITIVE,
        1.0e-45,
        -1.0e-45,
        f32::MAX,
        f32::MIN,
        f32::INFINITY,
        f32::NEG_INFINITY,
        f32::NAN,
        -f32::NAN,
        f32::from_bits(0x7f80_0001),
        f32::from_bits(0xffc0_0001),
        999.0,
        -999.0,
    ]
}

#[test]
fn nan_test_agrees_with_f32() {
    for a in samples() {
        assert_eq!(is_nan_bits(a.to_bits()), a.is_nan(), "{:?}", a);
    }
}

#[test]
fn comparisons_agree_with_f32() {
    for a in samples() {
        for b in samples() {
            let (x, y) = (a.to_bits(), b.to_bits());
            assert_eq!(lt_bits(x, y), a < b, "{:?} < {:?}", a, b);
            assert_eq!(gt_bits(x, y), a > b, "{:?} > {:?}", a, b);
            assert_eq!(le_bits(x, y), a <= b, "{:?} <= {:?}", a, b);
            assert_eq!(eq_bits(x, y), a == b, "{:?} == {:?}", a, b);
        }
    }
}

#[test]
fn total_order_agrees_with_total_cmp() {
    for a in samples() {
        for b in samples() {
            let expected = a.total_cmp(&b) == Ordering::Less;
            assert_eq!(total_lt_bits(a.to_bits(), b.to_bits()), expected, "{:?} {:?}", a, b);
        }
    }
}

#[test]
fn constants_are_the_float_values() {
    assert_eq!(ZERO, 0.0f32.to_bits());
    assert_eq!(NAN, f32::NAN.to_bits());
    assert_eq!(MIN_START, 999.0f32.to_bits());
    assert_eq!(MAX_START, (-999.0f32).to_bits());
    assert_eq!(CELL_MIN_START, 9999.0f32.to_bits());
    assert_eq!(CELL_MAX_START, (-9999.0f32).to_bits());
    assert_eq!(EDGE_THRESHOLD, 0.0005f32.to_bits());
    assert_eq!(EDGE_HIGH_THRESHOLD, 0.01f32.to_bits());
}
