use rowsink::ieee::{double_bits_of_int, fits_double, int_of_double, widen_single, EXACT_INT_LIMIT};
use rowsink::value::JsValueWrapper;

const SAMPLES: [i64; 22] = [
    0,
    1,
    -1,
    2,
    3,
    -3,
    7,
    255,
    256,
    65535,
    -65536,
    123_456_789,
    -987_654_321_012,
    2_147_483_647,
    -2_147_483_648,
    4_503_599_627_370_495,
    4_503_599_627_370_496,
    4_503_599_627_370_497,
    9_007_199_254_740_991,
    9_007_199_254_740_992,
    -9_007_199_254_740_991,
    -9_007_199_254_740_992,
];

#[test]
fn double_of_an_integer_is_the_cast() {
    for v in SAMPLES {
        assert_eq!(double_bits_of_int(v), (v as f64).to_bits(), "{}", v);
    }
}

#[test]
fn double_of_an_integer_reads_back() {
    for v in SAMPLES {
        let back = f64::from_bits(double_bits_of_int(v));
        assert_eq!(back as i64, v);
        assert_eq!(back.fract(), 0.0);
    }
}

#[test]
fn double_of_zero_is_positive_zero() {
    assert_eq!(double_bits_of_int(0), 0);
}

#[test]
fn double_of_every_power_of_two() {
    for e in 0..=53 {
        let v = 1i64 << e;
        assert_eq!(double_bits_of_int(v), (v as f64).to_bits());
        assert_eq!(double_bits_of_int(-v), (-v as f64).to_bits());
        if e > 0 {
            assert_eq!(double_bits_of_int(v - 1), ((v - 1) as f64).to_bits());
        }
    }
}

#[test]
fn exact_limit_is_two_to_the_53() {
    assert_eq!(EXACT_INT_LIMIT, 1i64 << 53);
}

#[test]
fn fits_double_at_the_limit() {
    assert!(fits_double(0));
    assert!(fits_double(1i64 << 53));
    assert!(fits_double(-(1i64 << 53)));
    assert!(!fits_double((1i64 << 53) + 1));
    assert!(!fits_double(-(1i64 << 53) - 1));
    assert!(!fits_double(i64::MAX));
    assert!(!fits_double(i64::MIN));
}

#[test]
fn widen_numbers() {
    for x in [
        0.0f32,
        -0.0,
        1.0,
        -1.0,
        1.5,
        0.1,
        3.1415927,
        -123456.79,
        f32::MAX,
        f32::MIN,
        f32::MIN_POSITIVE,
        f32::EPSILON,
    ] {
        assert_eq!(widen_single(x.to_bits()), (x as f64).to_bits(), "{}", x);
    }
}

#[test]
fn widen_subnormals() {
    for bits in [1u32, 2, 3, 0x0000_00ff, 0x0040_0000, 0x007f_ffff, 0x8000_0001, 0x807f_ffff] {
        let x = f32::from_bits(bits);
        assert_eq!(widen_single(bits), (x as f64).to_bits(), "{:#x}", bits);
    }
}

#[test]
fn widen_infinities() {
    assert_eq!(widen_single(f32::INFINITY.to_bits()), f64::INFINITY.to_bits());
    assert_eq!(
        widen_single(f32::NEG_INFINITY.to_bits()),
        f64::NEG_INFINITY.to_bits()
    );
}

#[test]
fn widen_nan_is_a_quiet_nan_with_the_payload() {
    assert_eq!(widen_single(0x7fc0_0000), 0x7ff8_0000_0000_0000);
    assert_eq!(widen_single(0xffc0_0001), 0xfff8_0000_2000_0000);
    assert_eq!(widen_single(0x7f80_0001), 0x7ff8_0000_2000_0000);
    assert!(f64::from_bits(widen_single(f32::NAN.to_bits())).is_nan());
}

#[test]
fn widen_every_exponent() {
    for e in 0u32..=254 {
        for f in [0u32, 1, 0x0012_3456, 0x007f_ffff] {
            let bits = (e << 23) | f;
            let x = f32::from_bits(bits);
            assert_eq!(widen_single(bits), (x as f64).to_bits(), "{:#x}", bits);
            let neg = bits | 0x8000_0000;
            let x = f32::from_bits(neg);
            assert_eq!(widen_single(neg), (x as f64).to_bits(), "{:#x}", neg);
        }
    }
}

/// What the float itself says of being an integer below `2^63`.
fn integer_by_float(x: f64) -> Option<i64> {
    if x.fract() == 0.0 && x.abs() < (i64::MAX as f64) {
        Some(x as i64)
    } else {
        None
    }
}

#[test]
fn integer_of_a_double() {
    for x in [
        0.0f64,
        -0.0,
        1.0,
        -1.0,
        0.5,
        -0.5,
        1.5,
        2.0,
        1e15,
        1e16,
        1e18,
        -1e18,
        9.2e18,
        9.3e18,
        -9.3e18,
        1e19,
        1e300,
        f64::MAX,
        f64::MIN,
        f64::MIN_POSITIVE,
        f64::EPSILON,
        5e-324,
        4503599627370496.0,
        4503599627370496.5,
        4503599627370495.5,
        9007199254740992.0,
        9007199254740993.0,
        9223372036854775808.0,
        -9223372036854775808.0,
        9223372036854774784.0,
        -9223372036854774784.0,
        123456.789,
        3.0e9,
        f64::INFINITY,
        f64::NEG_INFINITY,
        f64::NAN,
    ] {
        assert_eq!(int_of_double(x.to_bits()), integer_by_float(x), "{}", x);
    }
}

#[test]
fn integer_of_a_double_for_every_exponent() {
    for e in 0u64..=2047 {
        for f in [0u64, 1, 1 << 51, (1 << 52) - 1, 0x000f_0000_0000_0000, 1 << 20, 3 << 40] {
            for sign in [0u64, 1 << 63] {
                let bits = sign | (e << 52) | f;
                let x = f64::from_bits(bits);
                assert_eq!(int_of_double(bits), integer_by_float(x), "{:#x}", bits);
            }
        }
    }
}

#[test]
fn integer_of_the_double_of_an_integer() {
    for v in SAMPLES {
        assert_eq!(int_of_double(double_bits_of_int(v)), Some(v));
    }
}

#[test]
fn number_of_the_host() {
    assert_eq!(JsValueWrapper::from_number(42.0f64.to_bits()), JsValueWrapper::I64(42));
    assert_eq!(JsValueWrapper::from_number((-0.0f64).to_bits()), JsValueWrapper::I64(0));
    assert_eq!(
        JsValueWrapper::from_number(0.5f64.to_bits()),
        JsValueWrapper::F64(0.5f64.to_bits())
    );
    assert_eq!(
        JsValueWrapper::from_number(1e19f64.to_bits()),
        JsValueWrapper::F64(1e19f64.to_bits())
    );
    assert_eq!(
        JsValueWrapper::from_number(f64::NAN.to_bits()),
        JsValueWrapper::F64(f64::NAN.to_bits())
    );
}
