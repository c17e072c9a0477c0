use std::collections::HashMap;

use lifering::components::FloatingPointComponents;
use lifering::encoding::{FloatEncoding, FloatWrap};

fn double(v: f64) -> FloatingPointComponents {
    FloatingPointComponents::new(FloatWrap::Double(v.to_bits()))
}

fn single(v: f32) -> FloatingPointComponents {
    FloatingPointComponents::new(FloatWrap::Single(v.to_bits()))
}

#[test]
fn decomposes_one_exactly() {
    match double(1.0) {
        FloatingPointComponents::Float(FloatEncoding(m, e, s)) => {
            assert_eq!((m, e, s), (1u64 << 52, -52, 1));
        }
        _ => panic!("1.0 is not a NaN"),
    }
    match single(-1.5) {
        FloatingPointComponents::Float(FloatEncoding(m, e, s)) => {
            assert_eq!((m, e, s), (3u64 << 22, -23, -1));
        }
        _ => panic!("-1.5 is not a NaN"),
    }
}

#[test]
fn decomposes_zero_subnormal_and_infinity() {
    match double(-0.0) {
        FloatingPointComponents::Float(FloatEncoding(m, e, s)) => assert_eq!((m, e, s), (0, -1075, -1)),
        _ => panic!("-0.0 is not a NaN"),
    }
    match double(f64::from_bits(1)) {
        FloatingPointComponents::Float(FloatEncoding(m, e, s)) => assert_eq!((m, e, s), (2, -1075, 1)),
        _ => panic!("a subnormal is not a NaN"),
    }
    match single(f32::INFINITY) {
        FloatingPointComponents::Float(FloatEncoding(m, e, s)) => assert_eq!((m, e, s), (1u64 << 23, 105, 1)),
        _ => panic!("infinity is not a NaN"),
    }
}

#[test]
fn from_wrap_matches_new() {
    let w = FloatWrap::Double(0.25f64.to_bits());
    assert!(FloatingPointComponents::from(w) == FloatingPointComponents::new(w));
}

#[test]
fn round_trips_edge_doubles() {
    for v in [0.0, -0.0, f64::MIN_POSITIVE, f64::from_bits(1), -f64::from_bits(0x000f_ffff_ffff_ffff), f64::MAX, f64::MIN, f64::INFINITY, f64::NEG_INFINITY, 1e-300, 123456.789] {
        assert_eq!(double(v).as_f64(), v.to_bits());
    }
}

#[test]
fn round_trips_edge_singles() {
    for v in [0.0f32, -0.0, f32::MIN_POSITIVE, f32::from_bits(1), -f32::from_bits(0x7f_ffff), f32::MAX, f32::MIN, f32::INFINITY, f32::NEG_INFINITY, 0.1, -7.25] {
        assert_eq!(single(v).as_f32(), v.to_bits());
    }
}

#[test]
fn widens_singles_exactly() {
    for v in [0.1f32, -3.5, f32::from_bits(1), f32::MAX] {
        assert_eq!(single(v).as_f64(), (v as f64).to_bits());
    }
}

#[test]
fn narrows_like_a_cast() {
    let cases = [
        1.0 + f64::powi(2.0, -24),
        1.0 + 3.0 * f64::powi(2.0, -24),
        0.1,
        -2.0 / 3.0,
        f64::MAX,
        1e-50,
        f64::powi(2.0, -150),
        3.0 * f64::powi(2.0, -150),
        f64::from_bits(1),
        (f32::MAX as f64) * (1.0 + f64::powi(2.0, -25)),
        -(f32::MIN_POSITIVE as f64) * 0.75,
    ];
    for v in cases {
        assert_eq!(double(v).as_f32(), (v as f32).to_bits(), "narrowing {v:e}");
    }
}

#[test]
fn narrowing_ties_go_to_even() {
    assert_eq!(f32::from_bits(double(1.0 + f64::powi(2.0, -24)).as_f32()), 1.0);
    assert_eq!(
        f32::from_bits(double(1.0 + 3.0 * f64::powi(2.0, -24)).as_f32()),
        1.0 + f32::powi(2.0, -22)
    );
}

#[test]
fn orders_negative_numbers_by_value() {
    assert!(double(-2.0) < double(-1.0));
    assert!(double(-1.0) < double(-0.5));
    assert!(double(-0.5) < double(0.5));
    assert!(single(3.0) > double(2.5));
    assert!(double(f64::MIN) > double(f64::NEG_INFINITY));
}

#[test]
fn zeros_are_equal() {
    assert!(double(0.0) == double(-0.0));
    assert!(double(0.0) == single(-0.0));
    assert!(double(0.0).partial_cmp(&double(-0.0)).unwrap().is_eq());
}

#[test]
fn nan_never_orders() {
    assert!(double(f64::NAN).partial_cmp(&double(1.0)).is_none());
    assert!(double(1.0).partial_cmp(&single(f32::NAN)).is_none());
    assert!(double(f64::NAN).partial_cmp(&double(f64::NAN)).is_none());
}

#[test]
fn nan_equality_follows_bits() {
    assert!(double(f64::NAN) == single(f32::NAN));
    assert!(double(f64::NAN) != double(-f64::NAN));
    assert!(double(f64::from_bits(0x7ff0_0000_0000_0001)) != double(f64::NAN));
    assert!(double(f64::NAN) != double(f64::INFINITY));
}

#[test]
fn punned_key_is_negated_bits() {
    assert_eq!(double(1.0).as_punned(), (-1.0f64).to_bits());
    assert_eq!(single(-2.0).as_punned(), 2.0f64.to_bits());
    assert_eq!(double(f64::NAN).as_punned(), (-f64::NAN).to_bits());
}

#[test]
fn widening_quiets_signaling_nan() {
    let signaling = FloatingPointComponents::new(FloatWrap::Single(0x7f80_0001));
    assert_eq!(signaling.as_f64(), 0x7ff8_0000_2000_0000);
    assert!(signaling.is_quiet_nan());
    let double_signaling = FloatingPointComponents::new(FloatWrap::Double(0x7ff0_0000_0000_0001));
    assert!(!double_signaling.is_quiet_nan());
}

#[test]
fn narrowing_keeps_nan_without_high_payload() {
    let low_payload = FloatingPointComponents::new(FloatWrap::Double(0xfff0_0000_0000_0001));
    assert_eq!(low_payload.as_f32(), 0xffc0_0000);
    assert!(f32::from_bits(low_payload.as_f32()).is_nan());
}

#[test]
fn quiet_nan_is_reported() {
    assert!(double(f64::NAN).is_quiet_nan());
    assert!(single(f32::NAN).is_quiet_nan());
    assert!(!double(1.0).is_quiet_nan());
}

#[test]
fn equal_values_share_a_hash_entry() {
    let mut map = HashMap::new();
    map.insert(single(10.0), "ten");
    map.insert(double(0.0), "zero");
    map.insert(double(f64::NAN), "nan");
    assert_eq!(map.get(&double(10.0)), Some(&"ten"));
    assert_eq!(map.get(&single(-0.0)), Some(&"zero"));
    assert_eq!(map.get(&single(f32::NAN)), Some(&"nan"));
    assert_eq!(map.len(), 3);
    map.insert(double(-0.0), "negative zero");
    assert_eq!(map.len(), 3);
}

#[test]
fn hash_key_agrees_with_equality() {
    assert_eq!(double(0.5).hash_key(), single(0.5).hash_key());
    assert_eq!(double(0.0).hash_key(), double(-0.0).hash_key());
    assert_ne!(double(0.5).hash_key(), double(-0.5).hash_key());
    assert_eq!(double(f64::NAN).hash_key(), single(f32::NAN).hash_key());
}

#[test]
fn wrapped_floats_compare_by_value() {
    assert!(FloatWrap::Double(0.0f64.to_bits()) == FloatWrap::Double((-0.0f64).to_bits()));
    assert!(FloatWrap::Single(2.0f32.to_bits()) == FloatWrap::Double(2.0f64.to_bits()));
    assert!(FloatWrap::Double(f64::NAN.to_bits()) == FloatWrap::Double(f64::NAN.to_bits()));
    assert!(FloatWrap::Double(f64::NAN.to_bits()) != FloatWrap::Double(1.0f64.to_bits()));
    assert!(FloatWrap::Double(1.0f64.to_bits()) != FloatWrap::Double(f64::NAN.to_bits()));
}

#[test]
fn single_infinity_widens_to_infinity() {
    assert_eq!(single(f32::INFINITY).as_f64(), f64::INFINITY.to_bits());
    assert_eq!(single(f32::NEG_INFINITY).as_f64(), f64::NEG_INFINITY.to_bits());
    assert!(single(f32::INFINITY) == double(f64::INFINITY));
    assert!(single(f32::NEG_INFINITY) == double(f64::NEG_INFINITY));
    assert!(single(f32::INFINITY) > double(1e300));
    assert!(single(f32::NEG_INFINITY) < double(-1e300));
    assert!(single(f32::INFINITY) != double(f64::powi(2.0, 128)));
    assert_eq!(single(f32::INFINITY).as_punned(), double(f64::INFINITY).as_punned());
    assert_eq!(single(f32::INFINITY).hash_key(), double(f64::INFINITY).hash_key());
}

#[test]
fn widening_matches_a_cast_for_every_kind() {
    for v in [0.0f32, -0.0, f32::from_bits(1), f32::MIN_POSITIVE, 1.5, f32::MAX, f32::INFINITY, f32::NEG_INFINITY] {
        assert_eq!(single(v).as_f64(), (v as f64).to_bits());
        assert_eq!(single(v).as_punned(), double(v as f64).as_punned());
    }
}

#[test]
fn infinities_share_a_hash_entry() {
    let mut map = HashMap::new();
    map.insert(single(f32::INFINITY), 1);
    assert_eq!(map.get(&double(f64::INFINITY)), Some(&1));
}

#[test]
fn hand_made_triples_are_not_well_formed() {
    assert!(double(1.0).is_well_formed());
    assert!(single(f32::NAN).is_well_formed());
    assert!(!FloatingPointComponents::Float(FloatEncoding(3, 7, 1)).is_well_formed());
    assert!(!FloatingPointComponents::Float(FloatEncoding(1u64 << 52, 0, 0)).is_well_formed());
    assert!(!FloatingPointComponents::NaN(FloatWrap::Double(1.0f64.to_bits())).is_well_formed());
}
