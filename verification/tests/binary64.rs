use srp_phat::binary64::{ge, gt, is_finite, is_nan, is_zero, order_key, NEG_INFINITY_BITS, ONE_BITS};

const SAMPLES: [f64; 12] = [
    0.0,
    -0.0,
    1.0,
    -1.0,
    2.5e-300,
    -7.25,
    f64::MAX,
    f64::MIN,
    f64::INFINITY,
    f64::NEG_INFINITY,
    f64::NAN,
    f64::MIN_POSITIVE,
];

#[test]
fn classification_agrees_with_std() {
    for v in SAMPLES {
        let b = v.to_bits();
        assert_eq!(is_finite(b), v.is_finite(), "{v}");
        assert_eq!(is_nan(b), v.is_nan(), "{v}");
        assert_eq!(is_zero(b), v == 0.0, "{v}");
    }
}

#[test]
fn comparisons_agree_with_std() {
    for a in SAMPLES {
        for b in SAMPLES {
            assert_eq!(gt(a.to_bits(), b.to_bits()), a > b, "{a} > {b}");
            assert_eq!(ge(a.to_bits(), b.to_bits()), a >= b, "{a} >= {b}");
            assert_eq!(
                order_key(a.to_bits()).cmp(&order_key(b.to_bits())),
                a.total_cmp(&b),
                "{a} total_cmp {b}"
            );
        }
    }
}

#[test]
fn named_constants_are_the_std_bit_patterns() {
    assert_eq!(NEG_INFINITY_BITS, f64::NEG_INFINITY.to_bits());
    assert_eq!(ONE_BITS, 1.0f64.to_bits());
}
