use fpvflow_core::audio::AudioTrack;
use fpvflow_core::rendering::audio_export::{
    channel_count, choose_format, Block, EncoderFormat, EncodingPlan, OpenedEncoder, SampleLayout,
};

fn track(channels: u16, sample_rate: u32) -> AudioTrack {
    AudioTrack { channels, sample_rate, ..AudioTrack::default() }
}

fn opened(format: EncoderFormat, rate: u32, frame_size: u32) -> OpenedEncoder {
    OpenedEncoder { format, rate, frame_size }
}

const PACKED: EncoderFormat = EncoderFormat::F32(SampleLayout::Packed);
const PLANAR: EncoderFormat = EncoderFormat::F32(SampleLayout::Planar);

#[test]
fn float_is_preferred() {
    let int = EncoderFormat::I16(SampleLayout::Packed);
    let wide = EncoderFormat::F64(SampleLayout::Planar);
    assert_eq!(choose_format(&[]), None);
    assert_eq!(choose_format(&[int, wide]), Some(int));
    assert_eq!(choose_format(&[int, PLANAR, PACKED]), Some(PLANAR));
    assert_eq!(choose_format(&[PACKED]), Some(PACKED));
}

#[test]
fn nothing_is_converted_without_need() {
    let t = track(2, 48000);
    assert!(!EncodingPlan::new(&t, opened(PACKED, 48000, 0), 1).resample);
    assert!(EncodingPlan::new(&t, opened(PACKED, 44100, 0), 1).resample);
    assert!(EncodingPlan::new(&t, opened(PLANAR, 48000, 0), 1).resample);
    assert!(EncodingPlan::new(&t, opened(EncoderFormat::I16(SampleLayout::Packed), 48000, 0), 1).resample);
}

#[test]
fn a_plan_takes_over_rate_and_channels() {
    let p = EncodingPlan::new(&track(0, 44100), opened(PLANAR, 48000, 960), 3);
    assert_eq!((p.channels, p.sample_rate, p.frame_size, p.frames_written), (1, 44100, 960, 0));
    assert_eq!(p.stream_index(), 3);
    assert_eq!(channel_count(&track(6, 1)), 6);
    assert_eq!(EncodingPlan::new(&track(2, 1), opened(PACKED, 1, 0), 0).frame_size, 1024);
}

#[test]
fn blocks_follow_one_another() {
    let mut p = EncodingPlan::new(&track(2, 48000), opened(PACKED, 48000, 100), 0);
    // 250 frames and one sample that makes no frame.
    let blocks = p.blocks(501);
    assert_eq!(
        blocks,
        vec![
            Block { from: 0, to: 200, frames: 100, pts: 0 },
            Block { from: 200, to: 400, frames: 100, pts: 100 },
            Block { from: 400, to: 500, frames: 50, pts: 200 },
        ]
    );
    for b in &blocks {
        p.advance(b);
    }
    assert_eq!(p.frames_written, 250);
    assert_eq!(p.blocks(4), vec![Block { from: 0, to: 4, frames: 2, pts: 250 }]);
    assert!(p.blocks(1).is_empty());
    assert!(p.blocks(0).is_empty());
}
