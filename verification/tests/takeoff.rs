use fpvflow_core::audio::takeoff;
use fpvflow_core::ieee::single::Single;

fn s(v: f32) -> Single {
    Single { bits: v.to_bits() }
}

fn f(v: Single) -> f32 {
    f32::from_bits(v.bits)
}

const MIN_SUSTAIN: f32 = 4.5;

#[derive(Debug, PartialEq)]
struct Takeoff {
    time_seconds: f64,
    sustain: f32,
}

/// Magnitude of one frequency in a window.
fn goertzel(samples: &[f32], sample_rate: f32, freq: f32) -> f32 {
    let n = samples.len() as f32;
    let k = freq * n / sample_rate;
    let w = 2.0 * std::f32::consts::PI * k / n;
    let coeff = 2.0 * w.cos();
    let (mut s1, mut s2) = (0.0f32, 0.0f32);
    for &v in samples {
        let s0 = v + coeff * s1 - s2;
        s2 = s1;
        s1 = s0;
    }
    (s1 * s1 + s2 * s2 - coeff * s1 * s2).max(0.0).sqrt()
}

/// Looks for the take-off, with the cosines of native floats.
fn detect(mono: &[f32], sample_rate: u32) -> Option<Takeoff> {
    let mono: Vec<Single> = mono.iter().map(|v| s(*v)).collect();
    let bands: Vec<(Single, Vec<Single>)> = takeoff::bands(sample_rate)
        .into_iter()
        .map(|(lo, hi)| {
            let c = cosines(&takeoff::probes(lo, hi), sample_rate);
            (lo, takeoff::band_envelope(&mono, sample_rate, &c))
        })
        .collect();
    takeoff::detect(&bands).map(|t| Takeoff {
        time_seconds: f64::from_bits(t.time_seconds.bits),
        sustain: f(t.sustain),
    })
}

/// Cosines of the angles of some frequencies.
fn cosines(probes: &[Single], sample_rate: u32) -> Vec<Single> {
    takeoff::angles(probes, sample_rate).into_iter().map(|a| s(f(a).cos())).collect()
}

const SR: u32 = 48000;

/// Builds a signal: `noise_level` everywhere, plus a tone at `freq` between
/// `from` and `to` seconds - a stand-in for the propellers running.
fn synth(duration_s: f32, noise_level: f32, freq: f32, from: f32, to: f32, tone_level: f32) -> Vec<f32> {
    let n = (duration_s * SR as f32) as usize;
    // A fixed generator, so the test does not depend on a random crate and
    // cannot flake between runs.
    let mut state = 0x1234_5678u32;
    (0..n)
        .map(|i| {
            state = state.wrapping_mul(1_103_515_245).wrapping_add(12345);
            let noise = ((state >> 16) as f32 / 32768.0 - 1.0) * noise_level;
            let t = i as f32 / SR as f32;
            let tone = if t >= from && t < to {
                (2.0 * std::f32::consts::PI * freq * t).sin() * tone_level
            } else {
                0.0
            };
            noise + tone
        })
        .collect()
}

#[test]
fn finds_the_takeoff_in_a_synthetic_flight() {
    let signal = synth(40.0, 0.02, 2600.0, 15.0, 35.0, 0.5);
    let found = detect(&signal, SR).expect("a flight is present");
    assert!((found.time_seconds - 15.0).abs() < 1.5, "found {:.2}s, expected ~15s", found.time_seconds);
    assert!(found.sustain >= MIN_SUSTAIN, "sustain {:.2} should clear the threshold", found.sustain);
}

#[test]
fn plain_noise_is_not_a_takeoff() {
    let signal = synth(40.0, 0.05, 0.0, 0.0, 0.0, 0.0);
    assert_eq!(detect(&signal, SR), None);
}

/// The case that drove the design: a short burst is not a flight, because the
/// level does not hold afterwards.
#[test]
fn a_short_burst_does_not_sustain() {
    let signal = synth(40.0, 0.02, 2600.0, 15.0, 15.5, 0.5);
    assert_eq!(detect(&signal, SR), None);
}

/// The band is searched rather than assumed, so a different propeller size -
/// a much higher tone here - is found just as well.
#[test]
fn a_different_blade_frequency_is_still_found() {
    let signal = synth(40.0, 0.02, 6000.0, 12.0, 35.0, 0.5);
    let found = detect(&signal, SR).expect("a flight is present");
    assert!((found.time_seconds - 12.0).abs() < 1.5, "found {:.2}s, expected ~12s", found.time_seconds);
}

#[test]
fn empty_input_is_not_a_crash() {
    assert_eq!(detect(&[], SR), None);
    assert_eq!(detect(&[0.1, 0.2], 0), None);
}

#[test]
fn levels_are_those_of_native_floats() {
    let signal = synth(0.2, 0.3, 2600.0, 0.0, 0.2, 0.5);
    let samples: Vec<Single> = signal.iter().map(|v| s(*v)).collect();
    let probes: Vec<Single> = [300.0, 700.0, 2500.0, 2600.0, 9300.0, 21600.0].iter().map(|v| s(*v)).collect();
    for (p, c) in probes.iter().zip(cosines(&probes, SR)) {
        for start in [0usize, 777, 5000] {
            let level = takeoff::goertzel(&samples, start, start + takeoff::WINDOW, c);
            let window = &signal[start..start + takeoff::WINDOW];
            assert_eq!(level.bits, goertzel(window, SR as f32, f(*p)).to_bits());
        }
    }
    assert_eq!(takeoff::goertzel(&samples, 5, 5, s(0.5)).bits, 0);
    assert_eq!(takeoff::angles(&[s(12000.0)], SR)[0].bits, (std::f32::consts::PI / 2.0).to_bits());
}

#[test]
fn envelopes_are_those_of_their_levels() {
    let signal = synth(0.5, 0.3, 2600.0, 0.25, 0.5, 0.5);
    let samples: Vec<Single> = signal.iter().map(|v| s(*v)).collect();
    let probes = takeoff::probes(s(2500.0), s(3000.0));
    let levels: Vec<f32> = takeoff::window_starts(signal.len(), SR)
        .into_iter()
        .map(|start| {
            let window = &signal[start..start + takeoff::WINDOW];
            let total = probes.iter().fold(0.0, |t, p| t + goertzel(window, SR as f32, f(*p)));
            total / probes.len() as f32
        })
        .collect();
    let peak = levels.iter().copied().fold(0.0, f32::max);
    let expected: Vec<Single> = levels.iter().map(|v| s(v / peak)).collect();
    let envelope = takeoff::band_envelope(&samples, SR, &cosines(&probes, SR));
    assert_eq!(envelope, expected);
    assert_eq!(envelope.len(), 10);
    assert_eq!(envelope.iter().map(|v| f(*v)).fold(0.0, f32::max), 1.0);
    assert!(takeoff::band_envelope(&samples, SR, &[]).is_empty());
    assert!(takeoff::band_envelope(&samples[..2048], SR, &cosines(&probes, SR)).is_empty());
}

#[test]
fn a_flight_is_found_from_cosines_alone() {
    let rate = 4000u32;
    let signal: Vec<Single> = synth(5.0 * rate as f32 / SR as f32, 0.02, 10800.0, 2.5 * rate as f32 / SR as f32, 9.0, 0.5)
        .into_iter()
        .map(s)
        .collect();
    let bands: Vec<(Single, Vec<Single>)> = takeoff::bands(rate)
        .into_iter()
        .map(|(lo, hi)| {
            let c = cosines(&takeoff::probes(lo, hi), rate);
            (lo, takeoff::band_envelope(&signal, rate, &c))
        })
        .collect();
    let found = takeoff::detect(&bands).expect("a flight is present");
    assert_eq!(f(found.band_lo_hz), 700.0);
    let t = f64::from_bits(found.time_seconds.bits);
    assert!((t - 2.0).abs() < 0.5, "found {t:.2}s");
}

#[test]
fn bands_and_probes_are_searched_in_order() {
    let plain = |v: Vec<(Single, Single)>| -> Vec<(f32, f32)> { v.iter().map(|b| (f(b.0), f(b.1))).collect() };
    assert_eq!(plain(takeoff::bands(4000)), vec![(300.0, 600.0), (700.0, 1400.0), (1200.0, 1800.0)]);
    assert_eq!(takeoff::bands(48000).len(), 8);
    assert_eq!(plain(takeoff::bands(48000))[7], (7000.0, 14000.0));
    assert!(takeoff::bands(0).is_empty());
    let probes: Vec<f32> = takeoff::probes(s(700.0), s(1400.0)).iter().map(|p| f(*p)).collect();
    assert_eq!(probes, vec![700.0, 900.0, 1100.0, 1300.0]);
    assert!(takeoff::probes(s(700.0), s(700.0)).is_empty());
    assert_eq!(takeoff::window_starts(2048, 48000), Vec::<usize>::new());
    assert_eq!(takeoff::window_starts(2049, 48000), vec![0]);
    assert_eq!(takeoff::window_starts(2049 + 2400, 48000), vec![0, 2400]);
    assert_eq!(takeoff::window_starts(2051, 7), vec![0, 1, 2]);
}

/// The highest sustain wins, and one too low is no flight.
#[test]
fn the_band_that_holds_best_decides() {
    let step = |low: f32, high: f32| -> Vec<Single> { (0..120).map(|i| s(if i < 60 { low } else { high })).collect() };
    let found = takeoff::detect(&[(s(300.0), step(0.1, 0.6)), (s(700.0), step(0.1, 0.9)), (s(1200.0), step(0.1, 0.7))]);
    let found = found.unwrap();
    assert_eq!(f(found.band_lo_hz), 700.0);
    assert_eq!(f(found.sustain), 0.9f32 / 0.1);
    assert!(takeoff::detect(&[(s(300.0), step(0.2, 0.8))]).is_none());
    assert!(takeoff::detect(&[(s(300.0), step(0.1, 0.9)[..59].to_vec())]).is_none());
    assert_eq!(takeoff::first_rise_with_sustain(&step(0.5, 0.5)), None);
    assert_eq!(takeoff::first_rise_with_sustain(&step(0.0, 0.5)).unwrap().1, s(0.0));
}
