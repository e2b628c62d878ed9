use fpvflow_core::audio::decode::{
    choose_track, downmix_to_mono, map_codec_type, map_source_format, open_audio, ChosenTrack,
    DecodeError, Decoding, Failure, Step, TrackParams,
};
use fpvflow_core::audio::export::{
    build_from_trim_ranges, check_format_compatibility, recommended_codec, FormatCompatibility,
};
use fpvflow_core::audio::{AudioTrack, SourceFormat};
use fpvflow_core::ieee::double::Double;
use fpvflow_core::ieee::single::Single;

fn s(v: f32) -> Single {
    Single { bits: v.to_bits() }
}

fn f(v: Single) -> f32 {
    f32::from_bits(v.bits)
}

fn d(v: f64) -> Double {
    Double { bits: v.to_bits() }
}

fn native(v: Double) -> f64 {
    f64::from_bits(v.bits)
}

fn singles(v: &[f32]) -> Vec<Single> {
    v.iter().map(|x| s(*x)).collect()
}

/// A WAV file in memory with 32-bit float samples (IEEE, format tag 3): a sine
/// per channel, with a short transient at `click_at_s`.
fn float_wav(sample_rate: u32, channels: u16, duration_s: f32, click_at_s: f32) -> Vec<u8> {
    let frames = (sample_rate as f32 * duration_s) as usize;
    let click_frame = (sample_rate as f32 * click_at_s) as usize;
    let mut samples: Vec<f32> = Vec::new();
    for i in 0..frames {
        let t = i as f32 / sample_rate as f32;
        for ch in 0..channels {
            let freq = 440.0 + 220.0 * ch as f32;
            let mut value = 0.5 * (2.0 * std::f32::consts::PI * freq * t).sin();
            if i >= click_frame && i - click_frame < 200 {
                value += 0.9;
            }
            samples.push(value);
        }
    }
    let data: Vec<u8> = samples.iter().flat_map(|v| v.to_le_bytes()).collect();
    wav(3, 32, sample_rate, channels, &data)
}

fn wav(tag: u16, bits: u16, sample_rate: u32, channels: u16, data: &[u8]) -> Vec<u8> {
    let block_align = channels * bits / 8;
    let mut file: Vec<u8> = Vec::new();
    file.extend_from_slice(b"RIFF");
    file.extend_from_slice(&(36 + data.len() as u32).to_le_bytes());
    file.extend_from_slice(b"WAVEfmt ");
    file.extend_from_slice(&16u32.to_le_bytes());
    file.extend_from_slice(&tag.to_le_bytes());
    file.extend_from_slice(&channels.to_le_bytes());
    file.extend_from_slice(&sample_rate.to_le_bytes());
    file.extend_from_slice(&(sample_rate * block_align as u32).to_le_bytes());
    file.extend_from_slice(&block_align.to_le_bytes());
    file.extend_from_slice(&bits.to_le_bytes());
    file.extend_from_slice(b"data");
    file.extend_from_slice(&(data.len() as u32).to_le_bytes());
    file.extend_from_slice(data);
    file
}

fn failure(e: symphonia::core::errors::Error) -> Failure {
    let text = e.to_string();
    match e {
        symphonia::core::errors::Error::IoError(io) => {
            Failure::Io { end: io.kind() == std::io::ErrorKind::UnexpectedEof, text }
        }
        symphonia::core::errors::Error::DecodeError(_) => Failure::Malformed(text),
        symphonia::core::errors::Error::SeekError(_) => Failure::Seek(text),
        symphonia::core::errors::Error::Unsupported(_) => Failure::Unsupported(text),
        symphonia::core::errors::Error::LimitError(_) => Failure::Limit(text),
        symphonia::core::errors::Error::ResetRequired => Failure::ResetRequired(text),
    }
}

/// Reads the packets that the library asks for.
fn decode(bytes: Vec<u8>) -> Result<AudioTrack, DecodeError> {
    let (opened, chosen) = open_audio(bytes, Some("wav"))?;
    let mut reader = opened.format;
    let params = reader.tracks().iter().find(|t| t.id == chosen.id).unwrap().codec_params.clone();
    let mut decoder = symphonia::default::get_codecs().make(&params, &symphonia::core::codecs::DecoderOptions::default()).unwrap();
    let mut decoding = Decoding::new(chosen);
    loop {
        let (step, packet) = match reader.next_packet() {
            Ok(p) => (decoding.after_read(Ok(p.track_id())), Some(p)),
            Err(e) => (decoding.after_read(Err(failure(e))), None),
        };
        match (step, packet) {
            (Step::Decode, Some(p)) => {
                let decoded = decoder.decode(&p).map(|buffer| {
                    let spec = *buffer.spec();
                    let mut out = symphonia::core::audio::SampleBuffer::<f32>::new(buffer.capacity() as u64, spec);
                    out.copy_interleaved_ref(buffer);
                    (spec.channels.count() as u16, singles(out.samples()))
                });
                decoding.after_decode(decoded.map_err(failure))?;
            }
            (Step::Fail(e), _) => return Err(e),
            (Step::Finish, _) => break,
            _ => continue,
        }
    }
    decoding.finish("file:///tmp/track.wav")
}

fn chosen() -> ChosenTrack {
    ChosenTrack { id: 7, sample_rate: 48000, source_format: SourceFormat::S16, channels: 2 }
}

fn params(codec: u32) -> TrackParams {
    TrackParams {
        id: 3,
        codec,
        sample_rate: Some(48000),
        sample_format: None,
        bits_per_sample: None,
        channels: 2,
    }
}

#[test]
fn downmix_media_os_canais() {
    // Dois canais intercalados: [L=1.0, R=0.0] e [L=0.0, R=1.0].
    let stereo = singles(&[1.0, 0.0, 0.0, 1.0]);
    let mono = downmix_to_mono(&stereo, 2);
    assert_eq!(mono, singles(&[0.5, 0.5]));
}

#[test]
fn downmix_de_mono_e_identidade() {
    let mono_in = singles(&[0.1, -0.2, 0.3]);
    assert_eq!(downmix_to_mono(&mono_in, 1), mono_in);
}

#[test]
fn downmix_drops_an_incomplete_frame() {
    let samples = singles(&[1.0, 2.0, 3.0, 4.0, 5.0, 6.0, 7.0, 8.0]);
    assert_eq!(downmix_to_mono(&samples, 3), singles(&[2.0, 5.0]));
    assert_eq!(downmix_to_mono(&samples, 0), samples);
}

#[test]
fn float_e_reconhecido_como_float() {
    assert!(map_source_format(Some(symphonia::core::sample::SampleFormat::F32), Some(32)).is_float());
    assert!(map_source_format(Some(symphonia::core::sample::SampleFormat::F64), Some(64)).is_float());
}

#[test]
fn wav_24_bits_nao_vira_32() {
    // WAV de 24 bits costuma ser entregue como S32 com bits_per_sample=24.
    assert_eq!(map_source_format(Some(symphonia::core::sample::SampleFormat::S32), Some(24)), SourceFormat::S24);
    assert_eq!(map_source_format(Some(symphonia::core::sample::SampleFormat::S32), Some(32)), SourceFormat::S32);
}

#[test]
fn codec_com_perda_nao_tem_formato_a_preservar() {
    assert_eq!(map_source_format(None, None), SourceFormat::Other);
    assert!(!map_source_format(None, None).is_float());
}

#[test]
fn every_sample_format_is_mapped() {
    assert_eq!(map_source_format(Some(symphonia::core::sample::SampleFormat::U32), None), SourceFormat::S32);
    assert_eq!(map_source_format(Some(symphonia::core::sample::SampleFormat::U32), Some(24)), SourceFormat::S24);
    assert_eq!(map_source_format(Some(symphonia::core::sample::SampleFormat::S24), None), SourceFormat::S24);
    assert_eq!(map_source_format(Some(symphonia::core::sample::SampleFormat::U24), Some(16)), SourceFormat::S24);
    assert_eq!(map_source_format(Some(symphonia::core::sample::SampleFormat::S16), None), SourceFormat::S16);
    assert_eq!(map_source_format(Some(symphonia::core::sample::SampleFormat::U16), None), SourceFormat::S16);
    assert_eq!(map_source_format(Some(symphonia::core::sample::SampleFormat::S8), None), SourceFormat::U8);
    assert_eq!(map_source_format(Some(symphonia::core::sample::SampleFormat::U8), None), SourceFormat::U8);
}

#[test]
fn codec_numbers_are_those_of_the_decoder() {
    let number = |c: symphonia::core::codecs::CodecType| u32::from_str_radix(&c.to_string()[2..], 16).unwrap();
    for c in [symphonia::core::codecs::CODEC_TYPE_PCM_F32LE, symphonia::core::codecs::CODEC_TYPE_PCM_F32BE_PLANAR, symphonia::core::codecs::CODEC_TYPE_PCM_F64LE, symphonia::core::codecs::CODEC_TYPE_PCM_F64BE_PLANAR] {
        assert_eq!(map_codec_type(number(c)), Some(SourceFormat::F32));
    }
    for c in [symphonia::core::codecs::CODEC_TYPE_PCM_S32LE, symphonia::core::codecs::CODEC_TYPE_PCM_S32BE_PLANAR, symphonia::core::codecs::CODEC_TYPE_PCM_U32LE, symphonia::core::codecs::CODEC_TYPE_PCM_U32BE_PLANAR] {
        assert_eq!(map_codec_type(number(c)), Some(SourceFormat::S32));
    }
    for c in [symphonia::core::codecs::CODEC_TYPE_PCM_S24LE, symphonia::core::codecs::CODEC_TYPE_PCM_S24BE_PLANAR, symphonia::core::codecs::CODEC_TYPE_PCM_U24LE, symphonia::core::codecs::CODEC_TYPE_PCM_U24BE_PLANAR] {
        assert_eq!(map_codec_type(number(c)), Some(SourceFormat::S24));
    }
    for c in [symphonia::core::codecs::CODEC_TYPE_PCM_S16LE, symphonia::core::codecs::CODEC_TYPE_PCM_S16BE_PLANAR, symphonia::core::codecs::CODEC_TYPE_PCM_U16LE, symphonia::core::codecs::CODEC_TYPE_PCM_U16BE_PLANAR] {
        assert_eq!(map_codec_type(number(c)), Some(SourceFormat::S16));
    }
    for c in [symphonia::core::codecs::CODEC_TYPE_PCM_S8, symphonia::core::codecs::CODEC_TYPE_PCM_S8_PLANAR, symphonia::core::codecs::CODEC_TYPE_PCM_U8, symphonia::core::codecs::CODEC_TYPE_PCM_U8_PLANAR] {
        assert_eq!(map_codec_type(number(c)), Some(SourceFormat::U8));
    }
    for c in [symphonia::core::codecs::CODEC_TYPE_NULL, symphonia::core::codecs::CODEC_TYPE_PCM_ALAW, symphonia::core::codecs::CODEC_TYPE_AAC] {
        assert_eq!(map_codec_type(number(c)), None);
    }
    assert_eq!(number(symphonia::core::codecs::CODEC_TYPE_NULL), 0);
}

#[test]
fn decodifica_wav_float_preservando_o_formato_de_origem() {
    let track = decode(float_wav(48000, 2, 1.0, 0.5)).expect("decodificar o WAV float");

    // O ponto central da feature: float precisa ser reconhecido como float.
    assert_eq!(track.source_format, SourceFormat::F32);
    assert!(track.source_format.is_float());
    assert_eq!(track.sample_rate, 48000);
    assert_eq!(track.channels, 2, "os canais originais têm que ser preservados");
    assert_eq!(track.frame_count(), 48000);
    assert!((native(track.duration_seconds()) - 1.0).abs() < 0.001);

    // O mono de análise existe, é separado, e tem um valor por frame.
    assert_eq!(track.mono_analysis.len(), 48000);
    assert_ne!(track.mono_analysis.len(), track.samples.len(), "o mono não pode ser o buffer de export");

    // Preservação ligada por default.
    assert!(track.preserve_original_format);
    assert_eq!(track.path, "file:///tmp/track.wav");
    assert_eq!(track.format_summary(), "48000 Hz, 2 ch, 32-bit float");
}

#[test]
fn wav_float_nao_pode_ser_classificado_como_comprimido() {
    let track = decode(float_wav(48000, 2, 0.2, 0.1)).expect("decodificar");

    assert_ne!(
        track.source_format,
        SourceFormat::Other,
        "WAV float classificado como comprimido: seria exportado com perda"
    );
    assert!(track.source_format.is_float());

    // E a consequência prática: o codec recomendado tem que ser float.
    assert_eq!(recommended_codec(track.source_format), "PCM (f32le)");
}

#[test]
fn decode_de_mono_tambem_funciona() {
    let track = decode(float_wav(44100, 1, 0.5, 0.25)).expect("decodificar WAV mono");

    assert_eq!(track.channels, 1);
    assert_eq!(track.sample_rate, 44100);
    assert_eq!(track.source_format, SourceFormat::F32);
}

#[test]
fn arquivo_invalido_e_rejeitado() {
    let r = decode(b"isto nao e um arquivo de audio".to_vec());
    assert!(r.is_err());
    match r {
        Err(DecodeError::UnsupportedFormat(text)) => assert!(!text.is_empty()),
        other => panic!("{other:?}"),
    }
}

#[test]
fn caminho_completo_do_arquivo_ao_buffer_de_export() {
    // Cenário realista: WAV float de 5 s, vídeo de 3 s, offset de +0,5 s e um
    // corte no meio.
    let mut track = decode(float_wav(48000, 2, 5.0, 2.0)).expect("decodificar");
    track.offset_seconds = d(0.5);

    // Sem corte: o buffer cobre exatamente os 3 s de vídeo.
    let full = build_from_trim_ranges(&track, &[], d(3.0));
    assert_eq!(full.len(), (3.0 * 48000.0) as usize * 2, "buffer tem que cobrir o vídeo inteiro");
    assert_eq!(full[0], track.samples[24000 * 2]);

    // Com corte em [1/3, 2/3] do vídeo de 3 s = 1 s de áudio.
    let trimmed = build_from_trim_ranges(&track, &[(d(1.0 / 3.0), d(2.0 / 3.0))], d(3.0));
    assert_eq!(trimmed.len(), 48000 * 2, "corte de 1 s a 48 kHz estéreo");
    assert_eq!(trimmed[1], track.samples[72000 * 2 + 1]);

    // O formato continua sendo float e o codec recomendado, pcm_f32le em MOV.
    let compat = check_format_compatibility(track.source_format, "mov", true);
    assert_eq!(compat, FormatCompatibility::Preserved { codec: "PCM (f32le)" });

    // E o mesmo material em MP4 tem que ser barrado, não convertido.
    let compat_mp4 = check_format_compatibility(track.source_format, "mp4", true);
    assert!(!compat_mp4.can_proceed(), "float em MP4 tem que exigir decisão do usuário");
}

#[test]
fn waveform_de_arquivo_real_tem_picos_coerentes() {
    let track = decode(float_wav(48000, 2, 1.0, 0.5)).expect("decodificar");

    let peaks = track.peaks_for_width(100);
    assert!(peaks.len() <= 100 && !peaks.is_empty());

    // O transiente em t=0,5 s tem que aparecer como um pico maior que a senoide
    // ao redor: é metade do arquivo, então perto do bucket 50.
    let middle = &peaks[45..55];
    let max_middle = middle.iter().map(|(_, max)| f(*max)).fold(f32::MIN, f32::max);
    let max_start = peaks[..10].iter().map(|(_, max)| f(*max)).fold(f32::MIN, f32::max);
    assert!(max_middle > max_start, "o transiente deveria produzir um pico maior: {max_middle} vs {max_start}");
}

#[test]
fn the_probe_reads_what_the_bytes_say() {
    let data = [0u8; 48];
    let (_, t) = open_audio(wav(1, 16, 44100, 1, &data), None).ok().unwrap();
    assert_eq!((t.sample_rate, t.source_format, t.channels), (44100, SourceFormat::S16, 1));
    let (_, t) = open_audio(wav(1, 24, 96000, 2, &data), Some("mp3")).ok().unwrap();
    assert_eq!((t.sample_rate, t.source_format, t.channels), (96000, SourceFormat::S24, 2));
    let (_, t) = open_audio(wav(1, 8, 8000, 1, &data), Some("wav")).ok().unwrap();
    assert_eq!((t.sample_rate, t.source_format, t.channels), (8000, SourceFormat::U8, 1));
    let (_, t) = open_audio(wav(1, 32, 8000, 2, &data), Some("wav")).ok().unwrap();
    assert_eq!(t.source_format, SourceFormat::S32);
    assert!(matches!(open_audio(Vec::new(), None), Err(DecodeError::UnsupportedFormat(_))));
}

#[test]
fn samples_come_back_as_they_were_written() {
    let data: Vec<u8> = [0.25f32, -1.5, 3.0, 0.125].iter().flat_map(|v| v.to_le_bytes()).collect();
    let track = decode(wav(3, 32, 48000, 2, &data)).unwrap();
    assert_eq!(track.samples, singles(&[0.25, -1.5, 3.0, 0.125]));
    assert_eq!(track.mono_analysis, singles(&[-0.625, 1.5625]));
}

#[test]
fn the_first_track_with_a_codec_is_chosen() {
    assert_eq!(choose_track(&[]), Err(DecodeError::NoAudioTrack));
    assert_eq!(choose_track(&[params(0), params(0)]), Err(DecodeError::NoAudioTrack));
    let mut silent = params(0x11c);
    silent.sample_rate = None;
    assert_eq!(choose_track(&[params(0), silent, params(0x100)]), Err(DecodeError::MissingSampleRate));
    let mut second = params(0x104);
    second.id = 9;
    let t = choose_track(&[params(0), second, params(0x11c)]).unwrap();
    assert_eq!((t.id, t.source_format), (9, SourceFormat::S24));
    let mut lossy = params(0x1003);
    lossy.sample_format = Some(symphonia::core::sample::SampleFormat::S16);
    assert_eq!(choose_track(&[lossy]).unwrap().source_format, SourceFormat::S16);
    assert_eq!(choose_track(&[params(0x1003)]).unwrap().source_format, SourceFormat::Other);
}

#[test]
fn packets_are_told_apart() {
    let d = Decoding::new(chosen());
    assert_eq!(d.after_read(Ok(7)), Step::Decode);
    assert_eq!(d.after_read(Ok(8)), Step::Skip);
    assert_eq!(d.after_read(Err(Failure::ResetRequired("r".to_string()))), Step::Finish);
    assert_eq!(d.after_read(Err(Failure::Io { end: true, text: "e".to_string() })), Step::Finish);
    for f in [
        Failure::Io { end: false, text: "x".to_string() },
        Failure::Malformed("x".to_string()),
        Failure::Seek("x".to_string()),
        Failure::Unsupported("x".to_string()),
        Failure::Limit("x".to_string()),
    ] {
        assert_eq!(d.after_read(Err(f)), Step::Fail(DecodeError::Decode("x".to_string())));
    }
}

#[test]
fn a_damaged_packet_does_not_spoil_the_file() {
    let mut d = Decoding::new(ChosenTrack { channels: 0, ..chosen() });
    assert!(d.after_decode(Err(Failure::Malformed("m".to_string()))).is_ok());
    assert!(d.after_decode(Err(Failure::Io { end: true, text: "m".to_string() })).is_ok());
    assert!(d.after_decode(Ok((1, singles(&[0.5])))).is_ok());
    assert!(d.after_decode(Ok((2, singles(&[0.25, 1.0])))).is_ok());
    assert_eq!(
        d.after_decode(Err(Failure::Limit("full".to_string()))),
        Err(DecodeError::Decode("full".to_string()))
    );
    let track = d.finish("u").unwrap();
    assert_eq!(track.channels, 1);
    assert_eq!(track.samples, singles(&[0.5, 0.25, 1.0]));
    assert_eq!(track.mono_analysis, track.samples);
    assert_eq!(track.offset_seconds.bits, 0);
}

#[test]
fn a_track_without_samples_is_empty() {
    assert!(matches!(Decoding::new(chosen()).finish("u"), Err(DecodeError::Empty)));
    let mut d = Decoding::new(ChosenTrack { channels: 0, ..chosen() });
    assert!(d.after_decode(Ok((0, singles(&[0.5])))).is_ok());
    assert!(matches!(d.finish("u"), Err(DecodeError::Empty)));
}

#[test]
fn errors_have_their_texts() {
    let text = |e: DecodeError| e.message();
    assert_eq!(text(DecodeError::Open("x".to_string())), "Não foi possível abrir o arquivo de áudio: x");
    assert_eq!(
        text(DecodeError::UnsupportedFormat("x".to_string())),
        "Formato de áudio não reconhecido ou arquivo corrompido: x"
    );
    assert_eq!(text(DecodeError::NoAudioTrack), "O arquivo não contém nenhuma trilha de áudio decodificável");
    assert_eq!(text(DecodeError::MissingSampleRate), "O arquivo não informa o sample rate da trilha de áudio");
    assert_eq!(text(DecodeError::Decode("x".to_string())), "Falha ao decodificar o áudio: x");
    assert_eq!(text(DecodeError::Empty), "A trilha de áudio está vazia");
}

#[test]
fn an_empty_track_has_no_length() {
    let t = AudioTrack::default();
    assert!(t.is_empty());
    assert_eq!(t.frame_count(), 0);
    assert_eq!(t.duration_seconds().bits, 0);
    assert_eq!(t.format_summary(), "0 Hz, 0 ch, 32-bit float");
    assert_eq!(SourceFormat::default(), SourceFormat::F32);
}

#[test]
fn formats_have_depths_and_labels() {
    let all = [
        (SourceFormat::F32, 32, true, "32-bit float"),
        (SourceFormat::S32, 32, false, "32-bit int"),
        (SourceFormat::S24, 24, false, "24-bit int"),
        (SourceFormat::S16, 16, false, "16-bit int"),
        (SourceFormat::U8, 8, false, "8-bit"),
        (SourceFormat::Other, 0, false, "comprimido"),
    ];
    for (format, bits, float, label) in all {
        assert_eq!(format.bits(), bits);
        assert_eq!(format.is_float(), float);
        assert_eq!(format.label(), label);
    }
}
