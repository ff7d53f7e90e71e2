use gbln_wasm::binary32::widen;
use gbln_wasm::binary64::{exponent_of, fraction_of, from_i64, from_u64, sign_of, to_integer};
use gbln_wasm::inbound::narrow;
use gbln_wasm::value::Value;

/// The variant that float arithmetic infers for a number: an integer
/// variant for an integer that 64 bits hold, a float for every other number.
fn narrow_by_float(n: f64) -> Value {
    let held = -9223372036854775808.0 <= n && n < 18446744073709551616.0;
    if n.fract() == 0.0 && n.is_finite() && held {
        if n >= 0.0 {
            if n <= u8::MAX as f64 {
                Value::U8(n as u8)
            } else if n <= u16::MAX as f64 {
                Value::U16(n as u16)
            } else if n <= u32::MAX as f64 {
                Value::U32(n as u32)
            } else {
                Value::U64(n as u64)
            }
        } else if n >= i8::MIN as f64 && n <= i8::MAX as f64 {
            Value::I8(n as i8)
        } else if n >= i16::MIN as f64 && n <= i16::MAX as f64 {
            Value::I16(n as i16)
        } else if n >= i32::MIN as f64 && n <= i32::MAX as f64 {
            Value::I32(n as i32)
        } else {
            Value::I64(n as i64)
        }
    } else {
        Value::F64(n.to_bits())
    }
}

/// A fixed sequence of 64-bit patterns that covers all exponents.
fn patterns(count: usize) -> Vec<u64> {
    let mut state: u64 = 0x9e37_79b9_7f4a_7c15;
    let mut out = Vec::new();
    for _ in 0..count {
        state ^= state << 13;
        state ^= state >> 7;
        state ^= state << 17;
        out.push(state);
    }
    out
}

#[test]
fn pattern_parts_are_read_off_the_bits() {
    let bits = (-6.5f64).to_bits();
    assert!(sign_of(bits));
    assert_eq!(exponent_of(bits), 1025);
    assert_eq!(fraction_of(bits), 0xa_0000_0000_0000);
    assert!(!sign_of(1.0f64.to_bits()));
    assert_eq!(exponent_of(1.0f64.to_bits()), 1023);
    assert_eq!(fraction_of(1.0f64.to_bits()), 0);
    assert_eq!(exponent_of(f64::INFINITY.to_bits()), 0x7ff);
}

#[test]
fn integers_are_read_as_sign_and_magnitude() {
    assert_eq!(to_integer(0.0f64.to_bits()), Some((false, 0)));
    assert_eq!(to_integer((-0.0f64).to_bits()), Some((true, 0)));
    assert_eq!(to_integer(1.0f64.to_bits()), Some((false, 1)));
    assert_eq!(to_integer((-129.0f64).to_bits()), Some((true, 129)));
    assert_eq!(to_integer(9007199254740992.0f64.to_bits()), Some((false, 1 << 53)));
    assert_eq!(to_integer(9223372036854775808.0f64.to_bits()), Some((false, 1 << 63)));
    assert_eq!(to_integer(18446744073709549568.0f64.to_bits()), Some((false, 0xffff_ffff_ffff_f800)));
    assert_eq!(to_integer((-18446744073709549568.0f64).to_bits()), Some((true, 0xffff_ffff_ffff_f800)));
}

#[test]
fn integers_of_more_than_64_bits_are_not_read() {
    assert_eq!(to_integer(18446744073709551616.0f64.to_bits()), None);
    assert_eq!(to_integer((-18446744073709551616.0f64).to_bits()), None);
    assert_eq!(to_integer(1e300f64.to_bits()), None);
    assert_eq!(to_integer((-1e300f64).to_bits()), None);
    assert_eq!(to_integer(f64::MAX.to_bits()), None);
}

#[test]
fn fractions_and_non_finite_numbers_are_no_integers() {
    assert_eq!(to_integer(0.5f64.to_bits()), None);
    assert_eq!(to_integer(3.14f64.to_bits()), None);
    assert_eq!(to_integer(2251799813685248.5f64.to_bits()), None);
    assert_eq!(to_integer(f64::MIN_POSITIVE.to_bits()), None);
    assert_eq!(to_integer(5e-324f64.to_bits()), None);
    assert_eq!(to_integer(f64::NAN.to_bits()), None);
    assert_eq!(to_integer(f64::INFINITY.to_bits()), None);
    assert_eq!(to_integer(f64::NEG_INFINITY.to_bits()), None);
}

#[test]
fn every_small_integer_narrows_to_u8() {
    for n in 0..=255u8 {
        assert_eq!(narrow((n as f64).to_bits()), Value::U8(n));
    }
}

#[test]
fn narrowing_boundaries_unsigned() {
    assert_eq!(narrow(0.0f64.to_bits()), Value::U8(0));
    assert_eq!(narrow(255.0f64.to_bits()), Value::U8(255));
    assert_eq!(narrow(256.0f64.to_bits()), Value::U16(256));
    assert_eq!(narrow(65535.0f64.to_bits()), Value::U16(65535));
    assert_eq!(narrow(65536.0f64.to_bits()), Value::U32(65536));
    assert_eq!(narrow(4294967295.0f64.to_bits()), Value::U32(4294967295));
    assert_eq!(narrow(4294967296.0f64.to_bits()), Value::U64(4294967296));
    assert_eq!(narrow(9007199254740992.0f64.to_bits()), Value::U64(9007199254740992));
}

#[test]
fn narrowing_boundaries_signed() {
    assert_eq!(narrow((-1.0f64).to_bits()), Value::I8(-1));
    assert_eq!(narrow((-128.0f64).to_bits()), Value::I8(-128));
    assert_eq!(narrow((-129.0f64).to_bits()), Value::I16(-129));
    assert_eq!(narrow((-32768.0f64).to_bits()), Value::I16(-32768));
    assert_eq!(narrow((-32769.0f64).to_bits()), Value::I32(-32769));
    assert_eq!(narrow((-2147483648.0f64).to_bits()), Value::I32(-2147483648));
    assert_eq!(narrow((-2147483649.0f64).to_bits()), Value::I64(-2147483649));
    assert_eq!(narrow((-9223372036854775808.0f64).to_bits()), Value::I64(i64::MIN));
}

#[test]
fn integers_that_no_variant_holds_stay_floats() {
    for n in [18446744073709551616.0f64, 1e300, f64::MAX, -9223372036854777856.0, -1e19, f64::MIN] {
        assert_eq!(narrow(n.to_bits()), Value::F64(n.to_bits()), "number {n}");
    }
}

#[test]
fn the_last_integers_that_a_variant_holds_are_narrowed() {
    assert_eq!(narrow(18446744073709549568.0f64.to_bits()), Value::U64(0xffff_ffff_ffff_f800));
    assert_eq!(narrow(9223372036854775808.0f64.to_bits()), Value::U64(1 << 63));
    assert_eq!(narrow((-9223372036854775808.0f64).to_bits()), Value::I64(i64::MIN));
    assert_eq!(narrow((-9223372036854774784.0f64).to_bits()), Value::I64(-9223372036854774784));
}

#[test]
fn float_classification() {
    assert_eq!(narrow(3.14f64.to_bits()), Value::F64(3.14f64.to_bits()));
    assert_eq!(narrow(3.0f64.to_bits()), Value::U8(3));
    assert_eq!(narrow((-0.5f64).to_bits()), Value::F64((-0.5f64).to_bits()));
    assert_eq!(narrow(1e-320f64.to_bits()), Value::F64(1e-320f64.to_bits()));
}

#[test]
fn non_finite_numbers_stay_floats() {
    assert_eq!(narrow(f64::NAN.to_bits()), Value::F64(f64::NAN.to_bits()));
    assert_eq!(narrow(f64::INFINITY.to_bits()), Value::F64(f64::INFINITY.to_bits()));
    assert_eq!(narrow(f64::NEG_INFINITY.to_bits()), Value::F64(f64::NEG_INFINITY.to_bits()));
}

#[test]
fn negative_zero_is_unsigned_zero() {
    assert_eq!(narrow((-0.0f64).to_bits()), Value::U8(0));
}

#[test]
fn narrowing_agrees_with_float_arithmetic() {
    for bits in patterns(200_000) {
        assert_eq!(narrow(bits), narrow_by_float(f64::from_bits(bits)), "pattern {bits:#x}");
    }
    for e in 0..0x800u64 {
        for f in [0u64, 1, 0x8_0000_0000_0000, 0xf_ffff_ffff_ffff, 0xf_ffff_ffff_fffe, 0x4_0000_0000_0000] {
            for s in [0u64, 1] {
                let bits = (s << 63) | (e << 52) | f;
                assert_eq!(narrow(bits), narrow_by_float(f64::from_bits(bits)), "pattern {bits:#x}");
            }
        }
    }
}

#[test]
fn narrowing_agrees_with_float_arithmetic_on_integers() {
    for bits in patterns(50_000) {
        for shift in [0u32, 11, 20, 31, 32, 33, 40, 48, 56, 60] {
            let n = (bits >> shift) as f64;
            assert_eq!(narrow(n.to_bits()), narrow_by_float(n));
            assert_eq!(narrow((-n).to_bits()), narrow_by_float(-n));
            let half = n + 0.5;
            assert_eq!(narrow(half.to_bits()), narrow_by_float(half));
        }
    }
}

#[test]
fn small_integers_become_their_own_number() {
    assert_eq!(from_u64(0), 0.0f64.to_bits());
    assert_eq!(from_u64(1), 1.0f64.to_bits());
    assert_eq!(from_u64(100), 100.0f64.to_bits());
    assert_eq!(from_u64(4294967295), 4294967295.0f64.to_bits());
    assert_eq!(from_u64(1 << 53), 9007199254740992.0f64.to_bits());
    assert_eq!(from_i64(0), 0.0f64.to_bits());
    assert_eq!(from_i64(-1), (-1.0f64).to_bits());
    assert_eq!(from_i64(-2147483648), (-2147483648.0f64).to_bits());
    assert_eq!(from_i64(i64::MIN), (-9223372036854775808.0f64).to_bits());
    assert_eq!(from_i64(i64::MAX), 9223372036854775808.0f64.to_bits());
}

#[test]
fn long_integers_round_to_the_nearest_number() {
    // 2^53 + 1 lies halfway between 2^53 and 2^53 + 2: the even neighbour wins.
    assert_eq!(from_u64((1 << 53) + 1), 9007199254740992.0f64.to_bits());
    assert_eq!(from_u64((1 << 53) + 2), 9007199254740994.0f64.to_bits());
    assert_eq!(from_u64((1 << 53) + 3), 9007199254740996.0f64.to_bits());
    assert_eq!(from_u64(u64::MAX), 18446744073709551616.0f64.to_bits());
    assert_eq!(from_u64(u64::MAX), 0x43f0_0000_0000_0000);
    assert_eq!(from_u64(0xffff_ffff_ffff_fbff), 18446744073709549568.0f64.to_bits());
    assert_eq!(from_u64(0xffff_ffff_ffff_fc00), 18446744073709551616.0f64.to_bits());
}

#[test]
fn integer_conversion_agrees_with_float_arithmetic() {
    for bits in patterns(100_000) {
        for shift in 0..64u32 {
            let n = bits >> shift;
            assert_eq!(from_u64(n), (n as f64).to_bits(), "integer {n}");
            let i = n as i64;
            assert_eq!(from_i64(i), (i as f64).to_bits(), "integer {i}");
        }
    }
    for k in 53..64u32 {
        let base = 1u64 << k;
        let half = 1u64 << (k - 53);
        for q in [0u64, 1, 2, 3, (1 << 52) - 1, (1 << 52) - 2] {
            for d in [0u64, 1, half.wrapping_sub(1), half, half + 1] {
                let n = base.wrapping_add(q.wrapping_mul(2 * half)).wrapping_add(d);
                assert_eq!(from_u64(n), (n as f64).to_bits(), "integer {n}");
            }
        }
    }
}

#[test]
fn widening_keeps_the_number() {
    assert_eq!(widen(1.5f32.to_bits()), 1.5f64.to_bits());
    assert_eq!(widen((-0.1f32).to_bits()), ((-0.1f32) as f64).to_bits());
    assert_eq!(widen(0.0f32.to_bits()), 0.0f64.to_bits());
    assert_eq!(widen((-0.0f32).to_bits()), (-0.0f64).to_bits());
    assert_eq!(widen(f32::MAX.to_bits()), (f32::MAX as f64).to_bits());
    assert_eq!(widen(f32::MIN_POSITIVE.to_bits()), (f32::MIN_POSITIVE as f64).to_bits());
    assert_eq!(widen(1), (f32::from_bits(1) as f64).to_bits());
    assert_eq!(widen(0x007f_ffff), (f32::from_bits(0x007f_ffff) as f64).to_bits());
    assert_eq!(widen(f32::INFINITY.to_bits()), f64::INFINITY.to_bits());
    assert_eq!(widen(f32::NEG_INFINITY.to_bits()), f64::NEG_INFINITY.to_bits());
}

#[test]
fn widening_a_nan_gives_the_quiet_nan() {
    assert_eq!(widen(0x7fc0_0000), 0x7ff8_0000_0000_0000);
    assert_eq!(widen(0x7f80_0001), 0x7ff8_0000_0000_0000);
    assert_eq!(widen(0xffc1_2345), 0xfff8_0000_0000_0000);
    assert!(f64::from_bits(widen(f32::NAN.to_bits())).is_nan());
}

#[test]
fn widening_agrees_with_float_arithmetic() {
    for bits in patterns(200_000) {
        for single in [bits as u32, (bits >> 32) as u32, (bits >> 9) as u32 & 0x807f_ffff] {
            let x = f32::from_bits(single);
            if !x.is_nan() {
                assert_eq!(widen(single), (x as f64).to_bits(), "pattern {single:#x}");
            }
        }
    }
}
