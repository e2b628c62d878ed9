use fpvflow_core::ieee::double::Double;
use fpvflow_core::ieee::single::Single;

fn next(state: &mut u64) -> u64 {
    *state ^= *state << 13;
    *state ^= *state >> 7;
    *state ^= *state << 17;
    *state
}

fn s(v: f32) -> Single {
    Single { bits: v.to_bits() }
}

fn d(v: f64) -> Double {
    Double { bits: v.to_bits() }
}

fn same32(got: Single, want: f32) -> bool {
    if want.is_nan() { got.is_nan() } else { got.bits == want.to_bits() }
}

fn same64(got: Double, want: f64) -> bool {
    if want.is_nan() { got.is_nan() } else { got.bits == want.to_bits() }
}

/// Zeros, subnormals, values around one, the ends of the range and NaN.
const EDGES: [f32; 16] = [
    0.0, -0.0, 1.0, -1.0, 0.5, 1.5, 2.5, 3.4028235e38, -3.4028235e38, 1.1754944e-38, 1e-45, -1e-45,
    f32::INFINITY, f32::NEG_INFINITY, f32::NAN, 16777217.0,
];

fn check_singles(a: f32, b: f32) {
    assert!(same32(s(a).plus(s(b)), a + b), "{a:?} + {b:?}");
    assert!(same32(s(a).minus(s(b)), a - b), "{a:?} - {b:?}");
    assert!(same32(s(a).times(s(b)), a * b), "{a:?} * {b:?}");
    assert!(same32(s(a).over(s(b)), a / b), "{a:?} / {b:?}");
    assert_eq!(s(a).less(s(b)), a < b);
    assert_eq!(s(a).at_most(s(b)), a <= b);
    assert_eq!(s(a).equals(s(b)), a == b);
    assert_eq!(s(a) == s(b), a == b);
    assert_eq!(s(a).greater_of(s(b)) == s(a.max(b)), a.max(b) == a.max(b));
    assert_eq!(s(a).lesser_of(s(b)) == s(a.min(b)), a.min(b) == a.min(b));
}

fn check_single(a: f32) {
    assert_eq!(s(a).is_nan(), a.is_nan());
    assert!(same32(s(a).opposite(), -a));
    assert!(same32(s(a).magnitude(), a.abs()));
    assert!(same32(s(a).clamped(s(0.0), s(1.0)), a.clamp(0.0, 1.0)));
    assert!(same64(s(a).to_double(), a as f64));
    assert_eq!(s(a).trunc_u64(), a as u64, "{a:?}");
    assert_eq!(s(a).ceil_u64(), a.ceil() as u64, "{a:?}");
    assert_eq!(s(a).round_i64(), a.round() as i64, "{a:?}");
    assert!(same32(s(a).sqrt(), a.sqrt()), "{a:?}");
    assert_eq!(s(a).order() < 0, a.is_sign_negative() && a.to_bits() != 0x8000_0000);
}

fn check_doubles(a: f64, b: f64) {
    assert!(same64(d(a).plus(d(b)), a + b), "{a:?} + {b:?}");
    assert!(same64(d(a).minus(d(b)), a - b), "{a:?} - {b:?}");
    assert!(same64(d(a).times(d(b)), a * b), "{a:?} * {b:?}");
    assert!(same64(d(a).over(d(b)), a / b), "{a:?} / {b:?}");
    assert_eq!(d(a).less(d(b)), a < b);
    assert_eq!(d(a) == d(b), a == b);
}

fn check_double(a: f64) {
    assert!(same32(d(a).to_single(), a as f32), "{a:?}");
    assert_eq!(d(a).trunc_u64(), a as u64, "{a:?}");
    assert_eq!(d(a).ceil_u64(), a.ceil() as u64, "{a:?}");
    assert_eq!(d(a).round_i64(), a.round() as i64, "{a:?}");
    assert!(same64(d(a).sqrt(), a.sqrt()), "{a:?}");
    assert!(same64(d(a.abs()).sqrt(), a.abs().sqrt()), "{a:?}");
}

#[test]
fn edge_values_agree_with_the_hardware() {
    for a in EDGES {
        check_single(a);
        check_double(a as f64);
        for b in EDGES {
            check_singles(a, b);
            check_doubles(a as f64, b as f64);
        }
    }
    for a in [f64::MAX, -f64::MAX, f64::MIN_POSITIVE, 5e-324, 1e-46, 7.1e-46, 3.4028235677973366e38, 9.3e18] {
        check_double(a);
        for b in [f64::MAX, f64::MIN_POSITIVE, 5e-324, 3.0, 0.1] {
            check_doubles(a, b);
        }
    }
}

#[test]
fn arbitrary_bits_agree_with_the_hardware() {
    let mut state = 0x9e3779b97f4a7c15u64;
    for _ in 0..100_000 {
        let a = f32::from_bits(next(&mut state) as u32);
        let b = f32::from_bits(next(&mut state) as u32);
        check_single(a);
        check_singles(a, b);
        let a = f64::from_bits(next(&mut state));
        let b = f64::from_bits(next(&mut state));
        check_double(a);
        check_doubles(a, b);
    }
}

#[test]
fn neighbouring_magnitudes_agree_with_the_hardware() {
    let mut state = 0x0123456789abcdefu64;
    for _ in 0..100_000 {
        let x = next(&mut state);
        let y = next(&mut state);
        let a = (x as i32) as f32 / 65536.0;
        let b = (y as i32) as f32 / 4096.0;
        check_single(a);
        check_singles(a, b);
        let a = (x as i64) as f64 / 3.0;
        let b = (y as i64) as f64 / (1u64 << (x % 60)) as f64;
        check_double(a);
        check_doubles(a, b);
    }
}

#[test]
fn integers_agree_with_the_hardware() {
    let mut state = 42u64;
    for i in 0..100_000u64 {
        let v = next(&mut state) >> (i % 64);
        assert_eq!(Single::from_u64(v).bits, (v as f32).to_bits());
        assert_eq!(Double::from_u64(v).bits, (v as f64).to_bits());
        let w = v as i64;
        assert_eq!(Single::from_i64(w).bits, (w as f32).to_bits());
        assert_eq!(Double::from_i64(w).bits, (w as f64).to_bits());
    }
    assert_eq!(Double::from_i64(i64::MIN).bits, (i64::MIN as f64).to_bits());
    assert_eq!(Single::from_u64(16777217).bits, 16777216.0f32.to_bits());
}
