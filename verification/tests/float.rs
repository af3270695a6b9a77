//! Arithmetic on bit patterns, against the machine's.

use mlkit_ink::float::{F32, F64};

fn f(x: f64) -> F64 {
    F64 { bits: x.to_bits() }
}

fn g(x: f32) -> F32 {
    F32 { bits: x.to_bits() }
}

fn same64(ours: F64, machine: f64) -> bool {
    let ours = f64::from_bits(ours.bits);
    (ours.is_nan() && machine.is_nan()) || ours.to_bits() == machine.to_bits()
}

fn same32(ours: F32, machine: f32) -> bool {
    let ours = f32::from_bits(ours.bits);
    (ours.is_nan() && machine.is_nan()) || ours.to_bits() == machine.to_bits()
}

/// Every kind of number, and many bit patterns.
fn patterns64() -> Vec<f64> {
    let mut out = vec![
        0.0,
        -0.0,
        1.0,
        -1.0,
        1.5,
        f64::MIN_POSITIVE,
        -f64::MIN_POSITIVE,
        f64::from_bits(1),
        f64::from_bits(0x000f_ffff_ffff_ffff),
        f64::MAX,
        f64::MIN,
        f64::INFINITY,
        f64::NEG_INFINITY,
        f64::NAN,
        f64::EPSILON,
        1.0 + f64::EPSILON,
        1.0 - f64::EPSILON / 2.0,
        3.0,
        0.1,
        1e300,
        1e-300,
        16_777_217.0,
        3.4e38,
        1e-45,
        7e-46,
    ];
    let mut x = 0x9e37_79b9_7f4a_7c15u64;
    for _ in 0..150 {
        x ^= x << 13;
        x ^= x >> 7;
        x ^= x << 17;
        out.push(f64::from_bits(x));
        // Close to one, so that sums cancel.
        out.push(f64::from_bits((x >> 12) | 0x3ff0_0000_0000_0000));
    }
    out
}

fn patterns32() -> Vec<f32> {
    let mut out = vec![
        0.0,
        -0.0,
        1.0,
        -1.0,
        f32::MIN_POSITIVE,
        f32::from_bits(1),
        f32::from_bits(0x007f_ffff),
        f32::MAX,
        f32::MIN,
        f32::INFINITY,
        f32::NEG_INFINITY,
        f32::NAN,
        f32::EPSILON,
        1.0 + f32::EPSILON,
        0.1,
        1e38,
        1e-38,
    ];
    let mut x = 0x1234_5678u32;
    for _ in 0..150 {
        x ^= x << 13;
        x ^= x >> 17;
        x ^= x << 5;
        out.push(f32::from_bits(x));
        out.push(f32::from_bits((x >> 9) | 0x3f80_0000));
    }
    out
}

#[test]
fn binary64_is_the_machines() {
    let all = patterns64();
    for &a in &all {
        assert!(same64(f(a).negated(), -a));
        assert!(same64(f(a).abs(), a.abs()));
        assert!(same32(f(a).narrow(), a as f32), "{a}");
        assert_eq!(f(a).is_finite(), a.is_finite());
        assert_eq!(f(a).is_nan(), a.is_nan());
        assert_eq!(f(a).is_positive(), a > 0.0);
        assert_eq!(f(a).is_negative(), a.is_sign_negative());
        for &b in &all {
            assert!(same64(f(a).plus(f(b)), a + b), "{a} + {b}");
            assert!(same64(f(a).minus(f(b)), a - b), "{a} - {b}");
            assert!(same64(f(a).times(f(b)), a * b), "{a} * {b}");
            assert!(same64(f(a).over(f(b)), a / b), "{a} / {b}");
            assert_eq!(f(a).less(f(b)), a < b, "{a} < {b}");
            assert_eq!(f(a) == f(b), a == b, "{a} == {b}");
        }
    }
}

#[test]
fn binary32_is_the_machines() {
    let all = patterns32();
    for &a in &all {
        assert!(same32(g(a).negated(), -a));
        assert!(same32(g(a).abs(), a.abs()));
        assert!(same64(g(a).widen(), f64::from(a)));
        assert_eq!(g(a).is_finite(), a.is_finite());
        assert_eq!(g(a).is_nan(), a.is_nan());
        assert_eq!(g(a).is_zero(), a == 0.0);
        assert_eq!(g(a).is_positive(), a > 0.0);
        assert_eq!(g(a).is_negative(), a.is_sign_negative());
        assert_eq!(g(a).is_nonnegative(), a >= 0.0);
        for &b in &all {
            assert!(same32(g(a).plus(g(b)), a + b), "{a} + {b}");
            assert!(same32(g(a).minus(g(b)), a - b), "{a} - {b}");
            assert!(same32(g(a).times(g(b)), a * b), "{a} * {b}");
            assert!(same32(g(a).over(g(b)), a / b), "{a} / {b}");
            assert_eq!(g(a).less(g(b)), a < b, "{a} < {b}");
            assert_eq!(g(a) == g(b), a == b, "{a} == {b}");
            assert_eq!(g(a).no_more(g(b)), a <= b, "{a} <= {b}");
        }
    }
}

#[test]
fn integers_round_to_nearest_even() {
    for n in [
        0i64,
        1,
        -1,
        16_777_216,
        16_777_217,
        16_777_219,
        -16_777_219,
        i64::MAX,
        i64::MIN,
        (1 << 40) + 1,
        123_456_789_012_345,
    ] {
        assert!(same32(F32::from_int(n), n as f32), "{n}");
    }
    for n in [0u64, 1, 1 << 53, (1 << 53) + 1, (1 << 53) + 3, u64::MAX, u64::MAX - 1024] {
        assert!(same64(F64::from_nat(n), n as f64), "{n}");
    }
}

#[test]
fn numbers_are_written_in_as_few_digits_as_read_back() {
    let text64 = |x: f64| {
        let mut s = String::new();
        f(x).push_text(&mut s);
        s
    };
    let text32 = |x: f32| {
        let mut s = String::new();
        g(x).push_text(&mut s);
        s
    };
    assert_eq!(text64(-0.1), "-0.1");
    assert_eq!(text64(100.0), "100");
    assert_eq!(text64(-0.0), "-0");
    assert_eq!(text64(f64::NEG_INFINITY), "-inf");
    assert_eq!(text32(16_777_216.0), "16777216");
    for x in [5e-324, 9.5, 9.999999999999999e22, 1e23, 2.0f64.powi(60), 0.3, 1.0 / 3.0] {
        assert_eq!(text64(x), format!("{x}"));
    }
    for &x in patterns32().iter().step_by(3) {
        assert_eq!(text32(x), format!("{x}"));
        assert_eq!(text32(-x), format!("{}", -x));
    }
    for &x in patterns64().iter().step_by(11) {
        assert_eq!(text64(x), format!("{x}"));
    }
    for x in [f64::MAX, f64::MIN_POSITIVE, f64::from_bits(1), f64::from_bits(0x000f_ffff_ffff_ffff)] {
        assert_eq!(text64(x), format!("{x}"));
    }
    for x in [f32::MAX, f32::MIN_POSITIVE, f32::from_bits(1), f32::from_bits(0x007f_ffff)] {
        assert_eq!(text32(x), format!("{x}"));
    }
    for e in -149..128 {
        let x = 2.0f64.powi(e) as f32;
        assert_eq!(text32(x), format!("{x}"), "2^{e}");
    }
}
