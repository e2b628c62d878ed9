use fpvflow_core::audio::export::{check_format_compatibility, recommended_codec, FormatCompatibility};
use fpvflow_core::audio::order::{kth_of, median_of};
use fpvflow_core::audio::signal::{mean_of, peak_of, total_of};
use fpvflow_core::audio::{AudioTrack, SourceFormat};
use fpvflow_core::color::adjustments::ColorAdjustments;
use fpvflow_core::color::lut::gpu::{LutLayout, LutTexture, MAX_LUT_SIZE};
use fpvflow_core::color::lut::parse_cube_str;
use fpvflow_core::ieee::single::Single;

fn s(v: f32) -> Single {
    Single { bits: v.to_bits() }
}

fn f(v: Single) -> f32 {
    f32::from_bits(v.bits)
}

fn singles(v: &[f32]) -> Vec<Single> {
    v.iter().map(|x| s(*x)).collect()
}

/// Values that do not repeat soon.
fn noise(n: usize) -> Vec<f32> {
    let mut state = 0x2545_f491u32;
    (0..n)
        .map(|_| {
            state ^= state << 13;
            state ^= state >> 17;
            state ^= state << 5;
            (state >> 8) as f32 / 8_388_608.0 - 1.0
        })
        .collect()
}

const FORMATS: [SourceFormat; 6] = [
    SourceFormat::F32,
    SourceFormat::S32,
    SourceFormat::S24,
    SourceFormat::S16,
    SourceFormat::U8,
    SourceFormat::Other,
];

#[test]
fn the_suggested_extension_fits_every_format() {
    for format in FORMATS {
        for extension in ["mp4", ".MP4", "mkv", "..mov", "wav", "avi", ""] {
            match check_format_compatibility(format, extension, true) {
                FormatCompatibility::ContainerMismatch { wanted_codec, extension: plain, suggested_extension } => {
                    assert_eq!(wanted_codec, recommended_codec(format));
                    assert_eq!(plain, extension.trim_start_matches('.').to_ascii_lowercase());
                    assert!(check_format_compatibility(format, suggested_extension, true).can_proceed());
                }
                FormatCompatibility::Preserved { codec } => assert_eq!(codec, recommended_codec(format)),
                other => panic!("{other:?}"),
            }
        }
    }
}

#[test]
fn codecs_keep_the_depth_of_the_source() {
    let depth = |codec: &str| match codec {
        "PCM (f32le)" => 32,
        "PCM (s24le)" => 24,
        "PCM (s16le)" => 16,
        _ => 0,
    };
    for format in FORMATS {
        assert!(depth(recommended_codec(format)) >= format.bits(), "{format:?}");
    }
    let codecs: Vec<&str> = FORMATS.iter().map(|f| recommended_codec(*f)).collect();
    let expected = ["PCM (f32le)", "PCM (f32le)", "PCM (s24le)", "PCM (s16le)", "PCM (s16le)", "AAC"];
    assert_eq!(codecs, expected);
}

#[test]
fn sorted_places_ascend() {
    let mut v = noise(257);
    v.extend_from_slice(&[0.0, -0.0, f32::INFINITY, f32::NEG_INFINITY, 0.0]);
    let held = singles(&v);
    let mut sorted = v.clone();
    sorted.sort_by(|a, b| a.partial_cmp(b).unwrap());
    for k in 0..v.len() {
        assert_eq!(kth_of(&held, 0, held.len(), k).bits, sorted[k].to_bits(), "{k}");
    }
    assert_eq!(median_of(&held, 3, 3).bits, 0);
    assert_eq!(median_of(&singles(&[4.0, 1.0, 3.0, 2.0]), 0, 4), s(3.0));
    assert_eq!(median_of(&singles(&[9.0, 4.0, 1.0, 3.0, 9.0]), 1, 4), s(3.0));
}

#[test]
fn sums_and_means_are_those_of_native_floats() {
    let v = noise(1000);
    let held = singles(&v);
    assert_eq!(total_of(&held, 0, 1000).bits, v.iter().sum::<f32>().to_bits());
    assert_eq!(total_of(&held, 10, 13).bits, v[10..13].iter().sum::<f32>().to_bits());
    assert_eq!(mean_of(&held, 0, 1000).bits, (v.iter().sum::<f32>() / 1000.0).to_bits());
    assert_eq!(peak_of(&held).bits, v.iter().cloned().fold(0.0f32, f32::max).to_bits());
    assert_eq!(peak_of(&singles(&[-1.0, f32::NAN])).bits, 0);
    let none: Vec<f32> = Vec::new();
    assert_eq!(total_of(&held, 5, 5), s(none.iter().sum::<f32>()));
}

#[test]
fn every_sample_lies_within_its_peak() {
    let samples = noise(301);
    let track = AudioTrack { samples: singles(&samples), channels: 3, ..AudioTrack::default() };
    for size in [1usize, 2, 7, 100, 1000] {
        let peaks = track.peaks(size);
        assert_eq!(peaks.len(), 100usize.div_ceil(size));
        for frame in 0..100 {
            for channel in 0..3 {
                let v = samples[frame * 3 + channel];
                let (min, max) = peaks[frame / size];
                assert!(f(min) <= v && v <= f(max));
            }
        }
    }
}

#[test]
fn arithmetic_keeps_its_laws() {
    let one = Single::one();
    let zero = Single::zero();
    for v in noise(500) {
        let x = s(v * 1e3);
        assert_eq!(x.minus(x).bits, 0);
        assert_eq!(x.times(one).bits, x.bits);
        assert_eq!(x.over(x), one);
        assert_eq!(x.plus(zero), x);
        assert!(x.times(zero) == zero);
        assert!(x.less(x.plus(s(200.0))));
        assert!(x.minus(s(0.7)).at_most(s(f(x) + 0.1).minus(s(0.7))));
    }
    for i in [0u64, 1, 2, 3, 1000, 0xff_ffff] {
        assert_eq!(Single::from_u64(i).trunc_u64(), i);
    }
}

/// A cube with entries that are unlike each other, as text.
fn cube(n: usize) -> (String, Vec<[f32; 3]>) {
    let v = noise(3 * n * n * n);
    let entries: Vec<[f32; 3]> = v.chunks(3).map(|c| [c[0], c[1], c[2]]).collect();
    let mut text = format!("LUT_3D_SIZE {n}\n");
    for e in &entries {
        text.push_str(&format!("{} {} {}\n", e[0], e[1], e[2]));
    }
    (text, entries)
}

#[test]
fn tables_pass_their_entries() {
    let n = 5;
    let (text, entries) = cube(n);
    let lut = parse_cube_str(&text).unwrap();
    for b in 0..n {
        for g in 0..n {
            for r in 0..n {
                let at = [s(r as f32 / 4.0), s(g as f32 / 4.0), s(b as f32 / 4.0)];
                let e = entries[r + g * n + b * n * n];
                assert_eq!(lut.sample(at), [s(e[0]), s(e[1]), s(e[2])]);
            }
        }
    }
    let curve = parse_cube_str("LUT_1D_SIZE 3\n0.1 0.2 0.3\n0.7 0.5 0.9\n0.4 1 0\n").unwrap();
    assert_eq!(curve.sample([s(0.5), s(1.0), s(0.0)]), [s(0.7), s(1.0), s(0.3)]);
}

#[test]
fn resampling_keeps_the_entries() {
    let n = 5;
    let (text, entries) = cube(n);
    let lut = parse_cube_str(&text).unwrap();
    let max = MAX_LUT_SIZE;
    let volume = LutTexture::resampled_to_max(&lut, LutLayout::Volume3D).unwrap();
    let tiled = LutTexture::resampled_to_max(&lut, LutLayout::Tiled2D).unwrap();
    assert_eq!((volume.width(), volume.bytes_per_row()), (65, 65 * 16));
    assert_eq!((tiled.width(), tiled.bytes_per_row()), (65 * 65, 65 * 65 * 16));
    for b in 0..n {
        for g in 0..n {
            for r in 0..n {
                let e = entries[r + g * n + b * n * n];
                let (x, y, z) = (16 * r, 16 * g, 16 * b);
                let p = 4 * (x + y * max + z * max * max);
                let q = 4 * (x + z * max + y * max * max);
                for ch in 0..3 {
                    assert_eq!(volume.data[p + ch], s(e[ch]));
                    assert_eq!(tiled.data[q + ch], s(e[ch]));
                }
                assert_eq!(volume.data[p + 3], s(1.0));
            }
        }
    }
}

#[test]
fn neutral_controls_pack_to_neutral_values() {
    let mut a = ColorAdjustments::default();
    assert!(a.is_identity());
    assert!(a.to_gpu().iter().all(|row| row.iter().all(|v| *v == s(0.0))));
    assert!(!a.set("gloss", s(3.0)));
    assert!(a.is_identity());
    assert_eq!(a.get("gloss"), s(0.0));
    assert!(a.set("tint", s(-0.0)));
    assert!(a.is_identity());
    assert!(a.set("tint", s(25.0)));
    assert!(!a.is_identity());
    assert_eq!(a.get("tint"), s(25.0));
    assert_eq!(a.to_gpu()[2][0], s(0.25));
}

#[test]
fn packed_values_stay_in_the_unit_range() {
    for v in noise(300) {
        let mut a = ColorAdjustments::default();
        for name in ColorAdjustments::names() {
            a.set(name, s(v * 300.0));
        }
        assert!(a.to_gpu().iter().all(|row| row.iter().all(|x| f(*x) >= -1.0 && f(*x) <= 1.0)));
        let before = a;
        a.set("shadows", s(12.5));
        assert_eq!(a.get("shadows"), s(12.5));
        assert_eq!(a.get("whites"), before.get("whites"));
    }
}

#[test]
fn colors_above_the_domain_get_its_end() {
    let (text, _) = cube(3);
    let lut = parse_cube_str(&format!("DOMAIN_MIN -1 0 0.5\nDOMAIN_MAX 2 1 0.75\n{text}")).unwrap();
    let end = lut.sample(lut.domain_max);
    assert_eq!(lut.sample([s(2.5), s(7.0), s(0.76)]), end);
    assert_eq!(lut.sample([s(1e20), s(1.0), s(3.0)]), end);
}
