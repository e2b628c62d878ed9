use fpvflow_core::audio::{AudioTrack, SourceFormat};
use fpvflow_core::ieee::double::Double;
use fpvflow_core::ieee::single::Single;

fn s(v: f32) -> Single {
    Single { bits: v.to_bits() }
}

fn peak(min: f32, max: f32) -> (Single, Single) {
    (s(min), s(max))
}

/// Trilha sintética mono com valores conhecidos.
fn track_mono(samples: Vec<f32>) -> AudioTrack {
    AudioTrack {
        path: String::new(),
        samples: samples.into_iter().map(s).collect(),
        channels: 1,
        sample_rate: 48000,
        source_format: SourceFormat::F32,
        mono_analysis: Vec::new(),
        offset_seconds: Double { bits: 0 },
        preserve_original_format: true,
    }
}

#[test]
fn extremos_por_bucket() {
    let track = track_mono(vec![0.0, 1.0, -1.0, 0.5]);
    // Dois buckets de dois frames: (0.0, 1.0) e (-1.0, 0.5).
    assert_eq!(track.peaks(2), vec![peak(0.0, 1.0), peak(-1.0, 0.5)]);
}

#[test]
fn ultimo_bucket_parcial_nao_e_descartado() {
    let track = track_mono(vec![0.2, 0.4, 0.9]);
    let peaks = track.peaks(2);
    assert_eq!(peaks.len(), 2);
    assert_eq!(peaks[1], peak(0.9, 0.9));
}

#[test]
fn bucket_zero_nao_divide_por_zero() {
    let track = track_mono(vec![0.1, 0.2]);
    assert_eq!(track.peaks(0).len(), 2);
}

#[test]
fn estereo_considera_os_dois_canais() {
    let mut track = track_mono(vec![0.0, 1.0, -1.0, 0.0]);
    track.channels = 2;
    // Um único bucket cobrindo os dois frames: o extremo vem de canais
    // diferentes (máximo no canal direito, mínimo no esquerdo).
    assert_eq!(track.peaks(2), vec![peak(-1.0, 1.0)]);
}

#[test]
fn trilha_vazia_nao_gera_picos() {
    assert!(track_mono(Vec::new()).peaks(10).is_empty());
}

#[test]
fn largura_em_pixels_limita_a_quantidade() {
    let track = track_mono((0..1000).map(|i| i as f32 / 1000.0).collect());
    assert!(track.peaks_for_width(100).len() <= 100);
}
