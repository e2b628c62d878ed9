use fpvflow_core::audio::sync;
use fpvflow_core::ieee::single::Single;
use rustfft::num_complex::Complex;
use rustfft::FftPlanner;

fn s(v: f32) -> Single {
    Single { bits: v.to_bits() }
}

fn f(v: Single) -> f32 {
    f32::from_bits(v.bits)
}

fn singles(v: &[f32]) -> Vec<Single> {
    v.iter().map(|x| s(*x)).collect()
}

fn complexes(v: &[Single]) -> Vec<Complex<f32>> {
    v.iter().map(|x| Complex::new(f(*x), 0.0)).collect()
}

fn lines(v: &[Complex<f32>]) -> Vec<(Single, Single)> {
    v.iter().map(|c| (s(c.re), s(c.im))).collect()
}

struct SyncResult {
    offset_seconds: f64,
    confidence: f32,
}

/// Supplies the transforms between the signals and the correlation.
fn cross_correlate(audio: &[f32], gyro: &[f32], rate: f32) -> SyncResult {
    let a = sync::normalize(&singles(audio));
    let g = sync::normalize(&singles(gyro));
    let count = a.len() + g.len() - 1;
    let length = sync::padded_length(count);
    let mut planner = FftPlanner::<f32>::new();
    let mut x = complexes(&sync::pad(&a, length));
    let mut y = complexes(&sync::mirror(&g, length));
    planner.plan_fft_forward(length).process(&mut x);
    planner.plan_fft_forward(length).process(&mut y);
    let products = sync::multiply_transforms(&lines(&x), &lines(&y));
    for (p, (re, im)) in x.iter_mut().zip(products) {
        *p = Complex::new(f(re), f(im));
    }
    planner.plan_fft_inverse(length).process(&mut x);
    let reals: Vec<Single> = x.iter().map(|c| s(c.re)).collect();
    let correlation = sync::unscale(&reals, count);
    let r = sync::cross_correlate(&correlation, a.len(), g.len(), s(rate));
    SyncResult { offset_seconds: f64::from_bits(r.offset_seconds.bits), confidence: f(r.confidence) }
}

fn lift_off(speed: &[f32], rate: f32) -> Option<usize> {
    sync::lift_off(&singles(speed), s(rate))
}

fn first_sustained_rise(envelope: &[f32], window: usize, fraction: f32) -> Option<usize> {
    sync::first_sustained_rise(&singles(envelope), window, s(fraction))
}

/// Angular speed of a clip at 20 Hz: `floor` on the ground, `flight` from
/// `lift_off` on, with an optional half-second nudge that returns to the
/// ground.
fn flight(len: usize, floor: f32, lift_off: usize, flight: f32, nudge: Option<usize>) -> Vec<f32> {
    (0..len)
        .map(|i| {
            let mut v = floor + if i % 2 == 0 { 0.1 } else { -0.1 };
            if i >= lift_off {
                v = flight;
            }
            if let Some(n) = nudge {
                if i >= n && i < n + 10 {
                    v = flight * 0.4;
                }
            }
            v
        })
        .collect()
}

#[test]
fn lift_off_is_where_the_speed_leaves_the_ground() {
    let speed = flight(1200, 1.0, 400, 40.0, None);
    assert_eq!(lift_off(&speed, 20.0), Some(400));
}

/// The reference clip: the aircraft rocks on the ground a second before it
/// actually leaves. That bump falls straight back and must be skipped.
#[test]
fn a_nudge_that_returns_to_the_ground_is_not_the_lift_off() {
    let speed = flight(1200, 1.0, 400, 40.0, Some(370));
    assert_eq!(lift_off(&speed, 20.0), Some(400));
}

#[test]
fn a_grounded_clip_has_no_lift_off() {
    assert_eq!(lift_off(&flight(1200, 1.0, usize::MAX, 40.0, None), 20.0), None);
    assert_eq!(lift_off(&flight(1200, 1.0, usize::MAX, 40.0, Some(370)), 20.0), None);
}

/// The thresholds are multiples of the clip's own floor, so a camera with
/// more drift is read the same way.
#[test]
fn a_noisier_camera_is_measured_against_its_own_floor() {
    let speed = flight(1200, 5.0, 400, 60.0, Some(370));
    assert_eq!(lift_off(&speed, 20.0), Some(400));
}

#[test]
fn too_short_for_a_lift_off_is_not_a_crash() {
    assert_eq!(lift_off(&[1.0, 40.0, 40.0], 20.0), None);
    assert_eq!(lift_off(&[], 20.0), None);
}
/// Envelope that rises at `first` and rises much harder later, which is the
/// shape that broke the previous "largest rise" logic: quiet, take-off, then
/// something louder further in (crowd, music, a low pass).
fn two_rises(len: usize, first: usize, second: usize) -> Vec<f32> {
    (0..len)
        .map(|i| {
            if i >= second { 1.0 }
            else if i >= first { 0.25 }
            else { 0.05 }
        })
        .collect()
}

#[test]
fn first_rise_wins_over_the_largest_one() {
    let env = two_rises(600, 200, 400);
    let found = first_sustained_rise(&env, 20, 0.2).expect("a rise exists");
    // Near the first step, nowhere near the bigger one at 400.
    assert!((found as i64 - 200).abs() <= 25, "found {found}, expected ~200");
}

#[test]
fn flat_envelope_has_no_rise() {
    assert_eq!(first_sustained_rise(&vec![0.5; 300], 20, 0.2), None);
}

#[test]
fn too_short_for_the_window_is_not_a_crash() {
    assert_eq!(first_sustained_rise(&[0.1, 0.2, 0.3], 20, 0.2), None);
}

/// Synthetic envelope with a gaussian pulse at `center`, imitating what
/// happens when the propellers spin up: a localized energy increase, which is
/// exactly what the correlation looks for.
fn pulse(len: usize, center: f32, width: f32) -> Vec<f32> {
    (0..len)
        .map(|i| {
            let d = (i as f32 - center) / width;
            (-d * d).exp()
        })
        .collect()
}

#[test]
fn recovers_zero_offset() {
    let signal = pulse(500, 250.0, 20.0);
    let r = cross_correlate(&signal, &signal, 100.0);
    assert!(r.offset_seconds.abs() < 0.02, "offset={}", r.offset_seconds);
    assert!(r.confidence > 0.5, "confidence={}", r.confidence);
}

#[test]
fn recovers_known_positive_offset() {
    // The audio pulse happens 50 samples AFTER the gyro pulse. At a 100 Hz
    // envelope rate that is +0.5 s.
    let audio = pulse(500, 300.0, 20.0);
    let gyro = pulse(500, 250.0, 20.0);
    let r = cross_correlate(&audio, &gyro, 100.0);
    assert!((r.offset_seconds - 0.5).abs() < 0.03, "offset={}", r.offset_seconds);
}

#[test]
fn recovers_known_negative_offset() {
    // Now the audio comes 50 samples BEFORE: -0.5 s.
    let audio = pulse(500, 200.0, 20.0);
    let gyro = pulse(500, 250.0, 20.0);
    let r = cross_correlate(&audio, &gyro, 100.0);
    assert!((r.offset_seconds + 0.5).abs() < 0.03, "offset={}", r.offset_seconds);
}

#[test]
fn confidence_drops_for_unrelated_signals() {
    // Two different patterns, with no common signature.
    let audio: Vec<f32> = (0..500).map(|i| ((i as f32) * 0.7).sin()).collect();
    let gyro: Vec<f32> = (0..500).map(|i| ((i as f32) * 0.013).cos()).collect();

    let matched = cross_correlate(&audio, &audio, 100.0);
    let unmatched = cross_correlate(&audio, &gyro, 100.0);

    assert!(
        unmatched.confidence < matched.confidence,
        "unrelated={}, matched={}",
        unmatched.confidence,
        matched.confidence
    );
}

#[test]
fn constant_signal_produces_no_false_alignment() {
    let flat = vec![1.0f32; 300];
    let signal = pulse(300, 150.0, 10.0);
    let r = cross_correlate(&signal, &flat, 100.0);
    // With no variation in the gyro there is nothing to match.
    assert!(r.confidence < 0.1, "confidence={}", r.confidence);
}

#[test]
fn too_short_input_is_rejected() {
    let r = cross_correlate(&[1.0], &[1.0], 100.0);
    assert_eq!(r.confidence, 0.0);
    assert_eq!(r.offset_seconds, 0.0);
}

#[test]
fn envelope_rate_converts_correctly() {
    let audio = pulse(500, 300.0, 20.0);
    let gyro = pulse(500, 250.0, 20.0);

    // The same 50-sample lag becomes a different offset depending on the
    // envelope rate.
    let r100 = cross_correlate(&audio, &gyro, 100.0);
    let r50 = cross_correlate(&audio, &gyro, 50.0);
    assert!((r100.offset_seconds - 0.5).abs() < 0.03);
    assert!((r50.offset_seconds - 1.0).abs() < 0.06);
}

#[test]
fn signals_are_made_ready_for_the_transform() {
    assert_eq!(sync::padded_length(0), 1);
    assert_eq!(sync::padded_length(1), 1);
    assert_eq!(sync::padded_length(3), 4);
    assert_eq!(sync::padded_length(1024), 1024);
    assert_eq!(sync::padded_length(1025), 2048);
    let v = singles(&[1.0, 2.0, 3.0]);
    assert_eq!(sync::pad(&v, 5), singles(&[1.0, 2.0, 3.0, 0.0, 0.0]));
    assert_eq!(sync::mirror(&v, 5), singles(&[3.0, 2.0, 1.0, 0.0, 0.0]));
    assert_eq!(sync::unscale(&singles(&[8.0, 4.0, 2.0, 1.0]), 3), singles(&[2.0, 1.0, 0.5]));
}

#[test]
fn products_are_those_of_native_floats() {
    let a: Vec<Complex<f32>> = (0..50).map(|i| Complex::new(0.37 * i as f32, 1.0 / (1.0 + i as f32))).collect();
    let b: Vec<Complex<f32>> = (0..50).map(|i| Complex::new(-1.1 + i as f32, 0.013 * i as f32)).collect();
    let products = sync::multiply_transforms(&lines(&a), &lines(&b));
    for i in 0..50 {
        let mut p = a[i];
        p *= b[i];
        assert_eq!((products[i].0.bits, products[i].1.bits), (p.re.to_bits(), p.im.to_bits()));
    }
}

#[test]
fn envelopes_are_normalized() {
    assert_eq!(sync::normalize(&singles(&[1.0, 3.0])), singles(&[-1.0, 1.0]));
    assert_eq!(sync::normalize(&singles(&[4.0, 4.0, 4.0])), singles(&[0.0, 0.0, 0.0]));
    assert_eq!(sync::normalize(&singles(&[0.1; 10])), singles(&[0.0; 10]));
    assert_eq!(sync::normalize(&singles(&[0.0, -0.0])), singles(&[0.0, 0.0]));
    assert!(sync::normalize(&[]).is_empty());
    let v: Vec<f32> = (0..100).map(|i| (i as f32 * 0.3).sin() + 0.01 * i as f32).collect();
    let mean = v.iter().sum::<f32>() / 100.0;
    let deviation = (v.iter().map(|x| (x - mean) * (x - mean)).sum::<f32>() / 100.0).sqrt();
    let expected: Vec<Single> = v.iter().map(|x| s((x - mean) / deviation)).collect();
    assert_eq!(sync::normalize(&singles(&v)), expected);
}

#[test]
fn an_alignment_is_read_off_the_highest_lag() {
    let read = |c: &[f32], rate: f32| {
        let r = sync::cross_correlate(&singles(c), 4, 3, s(rate));
        (f64::from_bits(r.offset_seconds.bits), f(r.confidence))
    };
    assert_eq!(read(&[0.0, 0.0, 0.0, 1.5, 0.0, 0.0], 2.0), (0.5, 0.5));
    assert_eq!(read(&[2.0, 0.0, 0.0, 0.0, 0.0, 0.0], 2.0), (-1.0, 2.0f32 / 3.0));
    // Of equal peaks the last counts, and the score stays between 0 and 1.
    assert_eq!(read(&[9.0, 0.0, 0.0, 0.0, 0.0, 9.0], 1.0), (3.0, 1.0));
    assert_eq!(read(&[-3.0, -1.0, -2.0, -2.0, -2.0, -2.0], 1.0), (-1.0, 0.0));
    assert_eq!(read(&[1.0; 6], 0.0), (0.0, 0.0));
    assert_eq!(read(&[1.0; 6], -5.0), (0.0, 0.0));
    assert_eq!(read(&[], 1.0), (0.0, 0.0));
    let r = sync::cross_correlate(&singles(&[1.0]), 1, 1, s(1.0));
    assert_eq!(r.confidence.bits, 0);
}

#[test]
fn a_rise_window_of_none_is_one() {
    assert_eq!(first_sustained_rise(&[0.0, 0.0, 1.0, 1.0], 0, 0.5), Some(2));
    assert_eq!(first_sustained_rise(&[0.0, 0.0, 1.0, 1.0], 1, 0.5), Some(2));
    assert_eq!(first_sustained_rise(&[0.0, 0.2, 1.0, 1.0], 1, 0.25), Some(1));
    assert_eq!(first_sustained_rise(&[0.0, 0.0, 1.0, 1.0], 1, -3.0), Some(0));
    assert_eq!(first_sustained_rise(&[1.0, 0.5, 0.2, 0.0], 1, 0.5), None);
}

#[test]
fn the_rate_only_scales_the_lag() {
    let gyro: Vec<f32> = (0..200).map(|i| ((i * i) % 37) as f32).collect();
    let mut audio = vec![0.0f32; 25];
    audio.extend_from_slice(&gyro);
    let slow = cross_correlate(&audio, &gyro, 100.0);
    let fast = cross_correlate(&audio, &gyro, 400.0);
    assert!(slow.offset_seconds != 0.0);
    assert_eq!(slow.offset_seconds, fast.offset_seconds * 4.0);
    assert_eq!(slow.confidence, fast.confidence);
    assert!(0.0 <= slow.confidence && slow.confidence <= 1.0);
}

#[test]
fn too_few_speeds_need_no_order() {
    assert_eq!(lift_off(&[f32::NAN, 1.0], 20.0), None);
    assert_eq!(lift_off(&[f32::NAN; 100], 0.0), None);
    assert!(!sync::is_long_enough(2, s(20.0)));
    assert!(sync::is_long_enough(1200, s(20.0)));
}
