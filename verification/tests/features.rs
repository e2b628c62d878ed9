use fpvflow_core::audio::features;
use fpvflow_core::audio::features::{FeatureParams, STFT_BINS, STFT_HOP, STFT_WINDOW};
use fpvflow_core::ieee::double::Double;
use fpvflow_core::ieee::single::Single;
use rustfft::num_complex::Complex;
use rustfft::FftPlanner;
use std::f32::consts::PI;

fn s(v: f32) -> Single {
    Single { bits: v.to_bits() }
}

fn f(v: Single) -> f32 {
    f32::from_bits(v.bits)
}

fn d(v: f64) -> Double {
    Double { bits: v.to_bits() }
}

const AUTO_BAND_MIN_HZ: f32 = 80.0;

/// Power spectra of the windows of a signal.
fn spectra(samples: &[f32]) -> Vec<Vec<Single>> {
    let mut planner = FftPlanner::<f32>::new();
    let fft = planner.plan_fft_forward(STFT_WINDOW);
    let samples: Vec<Single> = samples.iter().map(|v| s(*v)).collect();
    let cosines: Vec<Single> = features::window_angles().into_iter().map(|a| s(f(a).cos())).collect();
    let window = features::hann_window(&cosines);
    let mut out = Vec::new();
    for start in features::window_starts(samples.len()) {
        let mut buffer: Vec<Complex<f32>> =
            features::windowed(&samples, start, &window).iter().map(|v| Complex::new(f(*v), 0.0)).collect();
        fft.process(&mut buffer);
        let lines: Vec<(Single, Single)> = buffer.iter().map(|c| (s(c.re), s(c.im))).collect();
        out.push(features::power_spectrum(&lines));
    }
    out
}

fn detect_band(samples: &[f32], sample_rate: u32) -> Option<(f32, f32)> {
    let mean = features::average_spectrum(&spectra(samples));
    features::detect_band(&mean, sample_rate).map(|(lo, hi)| (f(lo), f(hi)))
}

fn audio_envelope(mono: &[f32], sample_rate: u32, params: &FeatureParams) -> (Vec<f32>, f32) {
    let spectra = spectra(mono);
    let mean = features::average_spectrum(&spectra);
    let found = features::detect_band(&mean, sample_rate);
    let (energies, rate) = features::audio_envelope(&spectra, sample_rate, params, found);
    (energies.iter().map(|e| f(*e).ln()).collect(), f(rate))
}

fn gyro_envelope(gyro: &[(f64, [f64; 3])], rate: f32, params: &FeatureParams) -> Vec<f32> {
    let readings: Vec<(Double, [Double; 3])> =
        gyro.iter().map(|(t, v)| (d(*t), [d(v[0]), d(v[1]), d(v[2])])).collect();
    features::gyro_envelope(&readings, s(rate), params).iter().map(|e| f(*e).ln()).collect()
}

fn highpass(signal: &[f32], rate: f32, cutoff: f32) -> Vec<f32> {
    let signal: Vec<Single> = signal.iter().map(|v| s(*v)).collect();
    features::highpass(&signal, s(rate), s(cutoff)).iter().map(|v| f(*v)).collect()
}

/// Seno de `freq_hz` com amplitude variável ao longo do tempo.
fn tone(freq_hz: f32, sample_rate: u32, seconds: f32, amplitude: impl Fn(f32) -> f32) -> Vec<f32> {
    let n = (sample_rate as f32 * seconds) as usize;
    (0..n)
        .map(|i| {
            let t = i as f32 / sample_rate as f32;
            amplitude(t) * (2.0 * PI * freq_hz * t).sin()
        })
        .collect()
}

#[test]
fn envelope_acompanha_a_variacao_de_intensidade() {
    // Tom de 400 Hz que fica mais forte na segunda metade.
    let sr = 8000;
    let signal = tone(400.0, sr, 2.0, |t| if t < 1.0 { 0.1 } else { 1.0 });
    let params = FeatureParams { auto_band: false, ..Default::default() };
    let (env, rate) = audio_envelope(&signal, sr, &params);

    assert!(!env.is_empty());
    assert!((rate - sr as f32 / STFT_HOP as f32).abs() < 0.01);

    // A energia na segunda metade tem que ser claramente maior.
    let mid = env.len() / 2;
    let first_half: f32 = env[..mid].iter().sum::<f32>() / mid as f32;
    let second_half: f32 = env[mid..].iter().sum::<f32>() / (env.len() - mid) as f32;
    assert!(second_half > first_half + 1.0, "primeira={first_half}, segunda={second_half}");
}

#[test]
fn deteccao_automatica_encontra_o_tom_dominante() {
    let sr = 8000;
    let signal = tone(500.0, sr, 2.0, |_| 1.0);
    let (lo, hi) = detect_band(&signal, sr).expect("deveria detectar a banda");
    // A banda tem que conter os 500 Hz reais.
    assert!(lo < 500.0 && hi > 500.0, "banda detectada: {lo}..{hi}");
}

#[test]
fn banda_ignora_a_faixa_do_vento() {
    let sr = 8000;
    // Rumble forte em 30 Hz + assinatura em 600 Hz, mais fraca.
    let mut signal = tone(30.0, sr, 2.0, |_| 3.0);
    let blades = tone(600.0, sr, 2.0, |_| 1.0);
    for (s, b) in signal.iter_mut().zip(blades.iter()) {
        *s += *b;
    }
    let (lo, hi) = detect_band(&signal, sr).expect("deveria detectar a banda");
    // Apesar de o rumble ser mais forte, a banda tem que cair nos 600 Hz.
    assert!(lo > AUTO_BAND_MIN_HZ, "banda começou dentro do vento: {lo}");
    assert!(lo < 600.0 && hi > 600.0, "banda detectada: {lo}..{hi}");
}

#[test]
fn sinal_curto_nao_gera_envelope() {
    let (env, rate) = audio_envelope(&[0.0; 100], 8000, &FeatureParams::default());
    assert!(env.is_empty());
    assert_eq!(rate, 0.0);
}

#[test]
fn envelope_do_gyro_sai_na_taxa_pedida() {
    // 10 s de gyro a 500 Hz, com vibração que dobra na metade.
    let gyro_rate = 500.0;
    let n = 5000;
    let gyro: Vec<(f64, [f64; 3])> = (0..n)
        .map(|i| {
            let t = i as f64 / gyro_rate;
            let amp = if t < 5.0 { 0.1 } else { 1.0 };
            let v = amp * (2.0 * std::f64::consts::PI * 80.0 * t).sin();
            (t * 1000.0, [v, 0.0, 0.0])
        })
        .collect();

    let target_rate = 15.625; // 8000/512
    let env = gyro_envelope(&gyro, target_rate, &FeatureParams::default());

    assert!(!env.is_empty());
    // ~10 s a 15.625 Hz ≈ 156 pontos, com folga para o arredondamento.
    assert!(env.len() > 100 && env.len() < 200, "tamanho={}", env.len());

    let mid = env.len() / 2;
    let first: f32 = env[..mid].iter().sum::<f32>() / mid as f32;
    let second: f32 = env[mid..].iter().sum::<f32>() / (env.len() - mid) as f32;
    assert!(second > first, "primeira={first}, segunda={second}");
}

#[test]
fn passa_alta_remove_o_nivel_dc() {
    // Sinal constante: só DC, nada de vibração.
    let dc = vec![5.0f32; 1000];
    let filtered = highpass(&dc, 500.0, 30.0);
    // Depois do transiente inicial o resultado tem que ficar perto de zero.
    assert!(filtered[500..].iter().all(|v| v.abs() < 0.1));
}

#[test]
fn windows_and_powers_are_those_of_native_floats() {
    let cosines: Vec<Single> = features::window_angles().into_iter().map(|a| s(f(a).cos())).collect();
    let window = features::hann_window(&cosines);
    assert_eq!(window.len(), STFT_WINDOW);
    let samples: Vec<f32> = (0..3000).map(|i| (i as f32 * 0.7).sin() * 3.0).collect();
    let held: Vec<Single> = samples.iter().map(|v| s(*v)).collect();
    let weighted = features::windowed(&held, 900, &window);
    for i in 0..STFT_WINDOW {
        let hann = 0.5 * (1.0 - (2.0 * PI * i as f32 / STFT_WINDOW as f32).cos());
        assert_eq!(window[i].bits, hann.to_bits());
        assert_eq!(weighted[i].bits, (samples[900 + i] * hann).to_bits());
    }
    let lines: Vec<(Single, Single)> = (0..STFT_WINDOW).map(|i| (s(i as f32 * 0.3), s(-0.1 * i as f32))).collect();
    let powers = features::power_spectrum(&lines);
    assert_eq!(powers.len(), STFT_BINS);
    for i in 0..STFT_BINS {
        assert_eq!(powers[i].bits, Complex::new(i as f32 * 0.3, -0.1 * i as f32).norm_sqr().to_bits());
    }
}

#[test]
fn windows_overlap_and_stay_inside() {
    assert!(features::window_starts(STFT_WINDOW - 1).is_empty());
    assert_eq!(features::window_starts(STFT_WINDOW), vec![0]);
    assert_eq!(features::window_starts(STFT_WINDOW + STFT_HOP), vec![0, STFT_HOP]);
    assert_eq!(features::window_starts(STFT_WINDOW + 2 * STFT_HOP - 1), vec![0, STFT_HOP]);
}

#[test]
fn a_mean_spectrum_averages_each_line() {
    let mut one = vec![s(0.0); STFT_BINS];
    let mut two = vec![s(0.0); STFT_BINS];
    one[7] = s(3.0);
    two[7] = s(5.0);
    two[8] = s(1.0);
    let mean = features::average_spectrum(&[one, two]);
    assert_eq!((mean[6], mean[7], mean[8]), (s(0.0), s(4.0), s(0.5)));
    assert!(features::average_spectrum(&[]).is_empty());
    // Lines 3.90625 Hz apart: the 80 Hz limit is line 21, the peak line 100.
    let mut spectrum = vec![s(1.0); STFT_BINS];
    spectrum[20] = s(9.0);
    spectrum[100] = s(5.0);
    let hz = 100.0 * 8000.0 / 2048.0;
    let found = features::detect_band(&spectrum, 8000).unwrap();
    assert_eq!((f(found.0), f(found.1)), (hz * (1.0f32 - 0.4), hz * (1.0f32 + 0.4)));
    assert_eq!(features::detect_band(&spectrum, 0), None);
    assert_eq!(features::detect_band(&[], 8000), None);
}

#[test]
fn energies_of_a_band_are_added_up() {
    let power: Vec<Single> = (0..STFT_BINS).map(|i| s(i as f32)).collect();
    let params = FeatureParams {
        auto_band: false,
        band_lo_hz: s(39.0),
        band_hi_hz: s(50.0),
        ..FeatureParams::default()
    };
    // Lines 9 to 12 of 3.90625 Hz each.
    let (energies, rate) = features::audio_envelope(&[power.clone()], 8000, &params, Some((s(1.0), s(2.0))));
    assert_eq!(energies, vec![s(9.0 + 10.0 + 11.0 + 12.0)]);
    assert_eq!(f(rate), 15.625);
    let narrow = FeatureParams { band_hi_hz: s(1.0), ..params };
    let (energies, rate) = features::audio_envelope(&[power], 8000, &narrow, None);
    assert!(energies.is_empty());
    assert_eq!(rate.bits, 0);
}
