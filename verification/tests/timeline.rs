use fpvflow_core::audio::{AudioTrack, SourceFormat};
use fpvflow_core::ieee::double::Double;
use fpvflow_core::ieee::single::Single;
use fpvflow_core::timeline::{line_of, stroke_color, visible_peaks, Lane};

fn s(v: f32) -> Single {
    Single { bits: v.to_bits() }
}

fn d(v: f64) -> Double {
    Double { bits: v.to_bits() }
}

fn track(samples: &[f32], channels: u16, sample_rate: u32) -> AudioTrack {
    AudioTrack {
        path: String::new(),
        samples: samples.iter().map(|v| s(*v)).collect(),
        channels,
        sample_rate,
        source_format: SourceFormat::F32,
        mono_analysis: Vec::new(),
        offset_seconds: d(0.0),
        preserve_original_format: true,
    }
}

fn lane(width: f64, duration_ms: f64, offset: f64) -> Lane {
    Lane {
        width: d(width),
        height: d(100.0),
        visible_left: d(0.0),
        visible_right: d(1.0),
        duration_ms: d(duration_ms),
        offset_seconds: d(offset),
    }
}

fn peaks(lane: Lane, t: &AudioTrack) -> Vec<(f32, f32)> {
    visible_peaks(lane, t).iter().map(|p| (f32::from_bits(p.0.bits), f32::from_bits(p.1.bits))).collect()
}

const RAMP: [f32; 8] = [0.0, 1.0, 2.0, 3.0, 4.0, 5.0, 6.0, 7.0];

#[test]
fn each_column_covers_its_frames() {
    // Eight frames at 8 Hz over one second of video, four columns.
    let t = track(&RAMP, 1, 8);
    assert_eq!(peaks(lane(4.0, 1000.0, 0.0), &t), vec![(0.0, 1.0), (2.0, 3.0), (4.0, 5.0), (6.0, 7.0)]);
}

#[test]
fn the_offset_moves_the_drawing() {
    let t = track(&RAMP, 1, 8);
    assert_eq!(peaks(lane(4.0, 1000.0, 0.5), &t), vec![(4.0, 5.0), (6.0, 7.0), (0.0, 0.0), (0.0, 0.0)]);
    assert_eq!(peaks(lane(4.0, 1000.0, -0.5), &t), vec![(0.0, 0.0), (0.0, 0.0), (0.0, 1.0), (2.0, 3.0)]);
}

#[test]
fn only_the_visible_stretch_is_drawn() {
    let t = track(&RAMP, 1, 8);
    let l = Lane { visible_left: d(0.5), visible_right: d(0.75), ..lane(2.0, 1000.0, 0.0) };
    assert_eq!(peaks(l, &t), vec![(4.0, 4.0), (5.0, 5.0)]);
}

#[test]
fn all_channels_count() {
    let t = track(&[0.5, -2.0, 0.25, 3.0], 2, 2);
    assert_eq!(peaks(lane(2.0, 1000.0, 0.0), &t), vec![(-2.0, 0.5), (0.25, 3.0)]);
}

#[test]
fn nothing_to_draw_draws_nothing() {
    let t = track(&RAMP, 1, 8);
    assert!(peaks(lane(0.0, 1000.0, 0.0), &t).is_empty());
    assert!(peaks(lane(4.0, 0.0, 0.0), &t).is_empty());
    assert!(peaks(Lane { height: d(-1.0), ..lane(4.0, 1000.0, 0.0) }, &t).is_empty());
    assert!(peaks(Lane { visible_right: d(0.0), ..lane(4.0, 1000.0, 0.0) }, &t).is_empty());
    assert!(peaks(lane(4.0, 1000.0, 0.0), &track(&[], 1, 8)).is_empty());
    assert!(peaks(lane(4.0, 1000.0, 0.0), &track(&RAMP, 0, 8)).is_empty());
    assert!(peaks(lane(4.0, 1000.0, 0.0), &track(&RAMP, 1, 0)).is_empty());
}

#[test]
fn columns_without_numbers_are_flat() {
    let t = track(&[f32::NAN, f32::NAN, 1.0, f32::NAN], 1, 4);
    assert_eq!(peaks(lane(2.0, 1000.0, 0.0), &t), vec![(0.0, 0.0), (1.0, 1.0)]);
    // Without an offset that is a number every column shows the first frame.
    let t = track(&RAMP[2..], 1, 4);
    assert_eq!(peaks(lane(2.0, 1000.0, f64::NAN), &t), vec![(2.0, 2.0), (2.0, 2.0)]);
}

#[test]
fn lines_are_drawn_around_the_middle() {
    let line = |min: f32, max: f32, scale: f64| {
        let (a, b) = line_of((s(min), s(max)), d(scale), d(50.0));
        (f64::from_bits(a.bits), f64::from_bits(b.bits))
    };
    assert_eq!(line(-0.5, 0.5, 1.0), (25.0, 75.0));
    assert_eq!(line(-0.5, 0.5, 0.0), (25.0, 75.0));
    assert_eq!(line(-0.5, 0.5, -3.0), (25.0, 75.0));
    assert_eq!(line(-0.25, 2.0, 2.0), (0.0, 75.0));
    assert_eq!(line(-9.0, 0.0, 1.0), (50.0, 100.0));
}

#[test]
fn the_theme_picks_the_color() {
    assert_eq!(stroke_color("light"), "#3a7d7d");
    assert_eq!(stroke_color("dark"), "#63c5c5");
    assert_eq!(stroke_color("Light"), "#63c5c5");
}
