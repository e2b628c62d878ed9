use fpvflow_core::audio::export;
use fpvflow_core::audio::export::{
    check_format_compatibility, container_supports_codec, recommended_codec, FormatCompatibility,
};
use fpvflow_core::audio::{AudioTrack, SourceFormat};
use fpvflow_core::ieee::double::Double;
use fpvflow_core::ieee::single::Single;

fn s(v: f32) -> Single {
    Single { bits: v.to_bits() }
}

fn d(v: f64) -> Double {
    Double { bits: v.to_bits() }
}

fn values(v: Vec<Single>) -> Vec<f32> {
    v.iter().map(|x| f32::from_bits(x.bits)).collect()
}

fn build_segment(track: &AudioTrack, t_in: f64, t_out: f64) -> Vec<f32> {
    values(export::build_segment(track, d(t_in), d(t_out)))
}

fn build_segments(track: &AudioTrack, ranges: &[(f64, f64)]) -> Vec<f32> {
    let ranges: Vec<(Double, Double)> = ranges.iter().map(|r| (d(r.0), d(r.1))).collect();
    values(export::build_segments(track, &ranges))
}

/// Trilha sintética: `frames` frames, mono, com valor igual ao índice.
///
/// Assim cada amostra identifica de qual instante veio, e um recorte errado
/// aparece como valor deslocado em vez de passar despercebido.
fn track(frames: usize, sample_rate: u32, offset_seconds: f64) -> AudioTrack {
    AudioTrack {
        path: String::new(),
        samples: (0..frames).map(|i| s(i as f32)).collect(),
        channels: 1,
        sample_rate,
        source_format: SourceFormat::F32,
        mono_analysis: Vec::new(),
        offset_seconds: d(offset_seconds),
        preserve_original_format: true,
    }
}

#[test]
fn recorte_sem_offset_pega_o_trecho_certo() {
    // 100 frames a 100 Hz = 1 s. Trecho [0.1, 0.2] → frames 10..20.
    let t = track(100, 100, 0.0);
    let seg = build_segment(&t, 0.1, 0.2);
    assert_eq!(seg.len(), 10);
    assert_eq!(seg[0], 10.0);
    assert_eq!(seg[9], 19.0);
}

#[test]
fn offset_positivo_adianta_o_audio() {
    // offset=+0.1 s: o trecho de vídeo [0.0, 0.1] busca o áudio em
    // [0.1, 0.2] → frames 10..20.
    let t = track(100, 100, 0.1);
    let seg = build_segment(&t, 0.0, 0.1);
    assert_eq!(seg[0], 10.0);
}

#[test]
fn offset_negativo_preenche_com_silencio_no_inicio() {
    // offset=-0.05 s: o vídeo em [0.0, 0.1] pede áudio a partir de -0.05 s,
    // que não existe. Os 5 primeiros frames são silêncio.
    let t = track(100, 100, -0.05);
    let seg = build_segment(&t, 0.0, 0.1);
    assert_eq!(seg.len(), 10);
    assert_eq!(&seg[0..5], &[0.0, 0.0, 0.0, 0.0, 0.0]);
    assert_eq!(seg[5], 0.0); // primeiro frame real da trilha
    assert_eq!(seg[6], 1.0);
}

#[test]
fn trecho_depois_do_fim_vira_silencio() {
    let t = track(100, 100, 0.0);
    // A trilha tem 1 s; pedir [1.5, 1.6] não tem sobreposição alguma.
    let seg = build_segment(&t, 1.5, 1.6);
    assert_eq!(seg.len(), 10);
    assert!(seg.iter().all(|s| *s == 0.0));
}

#[test]
fn buffer_cobre_a_duracao_pedida_mesmo_estourando_a_trilha() {
    let t = track(100, 100, 0.0);
    // Pede 0.5 s começando em 0.8 s: a trilha acaba em 1.0 s.
    let seg = build_segment(&t, 0.8, 1.3);
    // O tamanho é o do trecho de vídeo, não o do que sobrou de áudio.
    assert_eq!(seg.len(), 50);
    assert_eq!(seg[0], 80.0);
    assert_eq!(seg[19], 99.0);
    assert!(seg[20..].iter().all(|s| *s == 0.0));
}

#[test]
fn estereo_preserva_a_intercalacao() {
    let mut t = track(0, 100, 0.0);
    t.channels = 2;
    // [L0,R0, L1,R1, L2,R2] com L=índice e R=índice+100.
    t.samples = [0.0, 100.0, 1.0, 101.0, 2.0, 102.0].map(s).to_vec();
    let seg = build_segment(&t, 0.01, 0.03);
    assert_eq!(seg, vec![1.0, 101.0, 2.0, 102.0]);
}

#[test]
fn segmentos_multiplos_sao_concatenados_na_ordem() {
    let t = track(100, 100, 0.0);
    let seg = build_segments(&t, &[(0.0, 0.05), (0.5, 0.55)]);
    assert_eq!(seg.len(), 10);
    assert_eq!(seg[0], 0.0);
    assert_eq!(seg[5], 50.0);
}

#[test]
fn float_exige_codec_float() {
    assert_eq!(recommended_codec(SourceFormat::F32), "PCM (f32le)");
}

#[test]
fn float_nao_cabe_em_mp4() {
    assert!(!container_supports_codec("mp4", "PCM (f32le)"));
    assert!(container_supports_codec("mov", "PCM (f32le)"));
    assert!(container_supports_codec(".MOV", "PCM (f32le)"));
    assert!(container_supports_codec("mkv", "PCM (f32le)"));
}

#[test]
fn conflito_float_mp4_e_sinalizado_e_nao_convertido() {
    let r = check_format_compatibility(SourceFormat::F32, "mp4", true);
    assert!(!r.can_proceed());
    match r {
        FormatCompatibility::ContainerMismatch { wanted_codec, suggested_extension, .. } => {
            assert_eq!(wanted_codec, "PCM (f32le)");
            assert_eq!(suggested_extension, "mov");
        }
        _ => panic!("float em MP4 tem que ser sinalizado como incompatível"),
    }
}

#[test]
fn float_em_mov_e_preservado() {
    let r = check_format_compatibility(SourceFormat::F32, "mov", true);
    assert!(r.can_proceed());
    assert_eq!(r, FormatCompatibility::Preserved { codec: "PCM (f32le)" });
}

#[test]
fn downgrade_explicito_e_respeitado() {
    let r = check_format_compatibility(SourceFormat::F32, "mp4", false);
    assert!(r.can_proceed());
    assert_eq!(r, FormatCompatibility::DowngradeAccepted { codec: "AAC" });
}

#[test]
fn joined_ranges_give_joined_buffers() {
    let t = track(100, 100, 0.25);
    let first = [(0.0, 0.5), (0.6, 0.75)];
    let second = [(0.1, 0.2), (0.9, 1.5)];
    let all = [first, second].concat();
    let mut joined = build_segments(&t, &first);
    joined.extend(build_segments(&t, &second));
    assert_eq!(build_segments(&t, &all), joined);
    assert_eq!(build_segments(&t, &[]).len(), 0);
}
