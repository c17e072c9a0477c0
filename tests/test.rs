use std::collections::HashMap;

use lifering::components::FloatingPointComponents;
use lifering::encoding::FloatWrap;

fn lifering64(v: f64) -> FloatingPointComponents {
    FloatingPointComponents::new(FloatWrap::Double(v.to_bits()))
}

fn lifering32(v: f32) -> FloatingPointComponents {
    FloatingPointComponents::new(FloatWrap::Single(v.to_bits()))
}

#[test]
fn recover_f64() {
    const PI: f64 = 3.141592653589793;
    const EULER: f64 = 2.718281828459045;

    assert_eq!(f64::from_bits(lifering64(PI).as_f64()), PI);
    assert_eq!(f64::from_bits(lifering64(EULER).as_f64()), EULER);
}

#[test]
fn recover_f32() {
    const PI: f32 = 3.14159265;
    const EULER: f32 = 2.71828185;

    assert_eq!(f32::from_bits(lifering32(PI).as_f32()), PI);
    assert_eq!(f32::from_bits(lifering32(EULER).as_f32()), EULER);
}

#[test]
#[should_panic]
fn compare_nan_f32() {
    lifering32(f32::NAN).partial_cmp(&lifering32(0.0)).unwrap();
}

#[test]
#[should_panic]
fn compare_nan_f64() {
    lifering64(f64::NAN).partial_cmp(&lifering64(0.0)).unwrap();
}

#[test]
fn compare_infinity_f64() {
    assert!(lifering64(f64::INFINITY)
        .partial_cmp(&lifering64(0.0))
        .unwrap()
        .is_gt());
}

#[test]
fn compare_infinity_f32() {
    assert!(lifering32(f32::INFINITY)
        .partial_cmp(&lifering32(0.0))
        .unwrap()
        .is_gt());
}

#[test]
fn compare_neg_infinity_f64() {
    assert!(lifering64(f64::NEG_INFINITY)
        .partial_cmp(&lifering64(0.0))
        .unwrap()
        .is_lt());
}

#[test]
fn compare_neg_infinity_f32() {
    assert!(lifering32(f32::NEG_INFINITY)
        .partial_cmp(&lifering32(0.0))
        .unwrap()
        .is_lt());
}

#[test]
fn widen_f32_nan_to_f64() {
    // widening a single NaN to a double NaN; compared by ordering key, as NaN never equals itself natively
    assert_eq!(
        lifering64(f64::from_bits(lifering32(f32::NAN).as_f64())).as_punned(),
        lifering64(f64::NAN).as_punned()
    );
}

#[test]
fn narrow_f64_nan_to_f32() {
    assert_eq!(
        lifering32(f32::from_bits(lifering64(f64::NAN).as_f32())).as_punned(),
        lifering32(f32::NAN).as_punned()
    );
}

#[test]
fn narrow_f64_to_f32() {
    assert_eq!(f32::from_bits(lifering64(f64::INFINITY).as_f32()), f32::INFINITY);
}

#[test]
fn compare_f32_and_f64() {
    assert!(lifering64(10.0)
        .partial_cmp(&lifering32(10.0f32))
        .unwrap()
        .is_eq());
}

#[test]
fn eq_f32_nan() {
    assert!(lifering32(f32::NAN) == lifering32(f32::NAN));
}

#[test]
fn eq_f64_nan() {
    assert!(lifering64(f64::NAN) == lifering64(f64::NAN));
}

#[test]
fn neq_f32_nan() {
    assert!(lifering32(f32::NAN) != lifering32(0.0));
}

#[test]
fn neq_f64_nan() {
    assert!(lifering64(f64::NAN) != lifering64(0.0));
}

#[test]
fn f64_hashmap() {
    let mut map = HashMap::new();
    map.insert(lifering64(1.0_f64), 1);
    map.insert(lifering64(f64::NAN), 2);

    for (key, value) in &map {
        let key = f64::from_bits(key.as_f64());
        if key == 1.0 {
            assert_eq!(value, &1);
        } else if key.is_nan() {
            assert_eq!(value, &2);
        } else {
            unreachable!();
        }
    }
}

#[test]
fn f32_hashmap() {
    let mut map = HashMap::new();
    map.insert(lifering32(1.0_f32), 1);
    map.insert(lifering32(f32::NAN), 2);

    for (key, value) in &map {
        let key = f32::from_bits(key.as_f32());
        if key == 1.0 {
            assert_eq!(value, &1);
        } else if key.is_nan() {
            assert_eq!(value, &2);
        } else {
            unreachable!();
        }
    }
}
