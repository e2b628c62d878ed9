use fpvflow_core::color::lut::gpu::{build_tiled, build_volume, LutLayout, LutTexture, MAX_LUT_SIZE};
use fpvflow_core::color::lut::parser::{parse_cube_str, LutParseError};
use fpvflow_core::color::lut::{Lut, LutData};
use fpvflow_core::ieee::single::Single;

fn s(v: f32) -> Single {
    Single { bits: v.to_bits() }
}

fn f(v: Single) -> f32 {
    f32::from_bits(v.bits)
}

fn colors(c: [f32; 3]) -> [Single; 3] {
    [s(c[0]), s(c[1]), s(c[2])]
}

fn values(v: &[Single]) -> Vec<f32> {
    v.iter().map(|x| f(*x)).collect()
}

fn sample(lut: &Lut, c: [f32; 3]) -> [f32; 3] {
    let out = lut.sample(colors(c));
    [f(out[0]), f(out[1]), f(out[2])]
}

/// Smallest possible 3D table that is an exact identity: the eight corners
/// of the unit cube, in the order the format mandates - red fastest.
const IDENTITY_2: &str = "\
TITLE \"identity\"
LUT_3D_SIZE 2
0.0 0.0 0.0
1.0 0.0 0.0
0.0 1.0 0.0
1.0 1.0 0.0
0.0 0.0 1.0
1.0 0.0 1.0
0.0 1.0 1.0
1.0 1.0 1.0
";

#[test]
fn identity_lut_returns_the_input_untouched() {
    let lut = parse_cube_str(IDENTITY_2).expect("parse");
    assert_eq!(lut.size(), 2);
    assert!(lut.is_3d());
    assert_eq!(lut.title.as_deref(), Some("identity"));

    // The anchor test of the whole feature: if this drifts, the LUT pass
    // will be tinting images that should come out untouched.
    for &c in &[
        [0.0, 0.0, 0.0],
        [1.0, 1.0, 1.0],
        [0.5, 0.25, 0.75],
        [0.1, 0.9, 0.4],
    ] {
        let out = sample(&lut, c);
        for ch in 0..3 {
            assert!(
                (out[ch] - c[ch]).abs() < 1e-5,
                "channel {ch} of {c:?} came back as {out:?}"
            );
        }
    }
}

/// Swapping the scan order mirrors the image, and stays invisible on grey.
/// This pins the convention down with a table that is asymmetric on purpose.
#[test]
fn red_varies_fastest() {
    let lut = parse_cube_str(IDENTITY_2).expect("parse");
    let LutData::Lut3D { data, .. } = &lut.data else { panic!("expected 3D") };

    // Index 1 is (r=1, g=0, b=0). Read in the wrong order it would be blue.
    assert_eq!(data[1], colors([1.0, 0.0, 0.0]), "index 1 must be pure red");
    assert_eq!(data[2], colors([0.0, 1.0, 0.0]), "index 2 must be pure green");
    assert_eq!(data[4], colors([0.0, 0.0, 1.0]), "index 4 must be pure blue");

    // And through sampling: pure red in, pure red out.
    let out = sample(&lut, [1.0, 0.0, 0.0]);
    assert!((out[0] - 1.0).abs() < 1e-5 && out[1] < 1e-5 && out[2] < 1e-5, "got {out:?}");
}

#[test]
fn domain_is_respected() {
    // Same identity cube, but declaring that the input runs 0..0.5. A value
    // of 0.5 therefore lands at the top of the table, not the middle.
    let text = IDENTITY_2.replace(
        "LUT_3D_SIZE 2",
        "DOMAIN_MIN 0.0 0.0 0.0\nDOMAIN_MAX 0.5 0.5 0.5\nLUT_3D_SIZE 2",
    );
    let lut = parse_cube_str(&text).expect("parse");
    assert_eq!(lut.domain_max, colors([0.5, 0.5, 0.5]));

    let out = sample(&lut, [0.5, 0.5, 0.5]);
    for ch in 0..3 {
        assert!((out[ch] - 1.0).abs() < 1e-5, "0.5 should map to the top, got {out:?}");
    }

    // Above the domain the value clamps instead of extrapolating.
    let out = sample(&lut, [0.9, 0.9, 0.9]);
    for ch in 0..3 {
        assert!((out[ch] - 1.0).abs() < 1e-5, "expected clamping, got {out:?}");
    }
}

#[test]
fn one_dimensional_lut_parses() {
    let text = "LUT_1D_SIZE 3\n0.0 0.0 0.0\n0.5 0.5 0.5\n1.0 1.0 1.0\n";
    let lut = parse_cube_str(text).expect("parse");
    assert_eq!(lut.size(), 3);
    assert!(!lut.is_3d());

    let out = sample(&lut, [0.5, 0.5, 0.5]);
    for ch in 0..3 {
        assert!((out[ch] - 0.5).abs() < 1e-5, "got {out:?}");
    }
}

#[test]
fn truncated_file_is_rejected() {
    // Seven rows where the header promises eight - what a partial download
    // looks like.
    let text = IDENTITY_2.rsplit_once("1.0 1.0 1.0\n").unwrap().0.to_string();
    match parse_cube_str(&text) {
        Err(LutParseError::SizeMismatch { expected, found }) => {
            assert_eq!(expected, 8);
            assert_eq!(found, 7);
        }
        other => panic!("expected SizeMismatch, got {other:?}"),
    }
}

#[test]
fn missing_size_is_rejected() {
    let text = "TITLE \"no size\"\n0.0 0.0 0.0\n1.0 1.0 1.0\n";
    assert_eq!(parse_cube_str(text), Err(LutParseError::MissingSize));
}

#[test]
fn garbage_data_line_is_rejected() {
    let text = "LUT_3D_SIZE 2\n0.0 0.0 0.0\n1.0 oops 0.0\n";
    match parse_cube_str(text) {
        Err(LutParseError::InvalidData { line, .. }) => assert_eq!(line, 3),
        other => panic!("expected InvalidData, got {other:?}"),
    }
}

#[test]
fn comments_and_blank_lines_are_skipped() {
    let text = format!("# a comment\n\n{IDENTITY_2}\n# trailing comment\n");
    let lut = parse_cube_str(&text).expect("parse");
    assert_eq!(lut.size(), 2);
}

#[test]
fn rgba_upload_pads_alpha() {
    let lut = parse_cube_str(IDENTITY_2).expect("parse");
    let texels = lut.to_rgba_f32();
    assert_eq!(texels.len(), 8 * 4, "eight RGBA texels");
    assert_eq!(values(&texels[0..4]), [0.0, 0.0, 0.0, 1.0]);
    assert_eq!(values(&texels[4..8]), [1.0, 0.0, 0.0, 1.0]);
}

#[test]
fn volume_keeps_the_cube_order() {
    let lut = parse_cube_str(IDENTITY_2).unwrap();
    let tex = build_volume(&lut).expect("3D lut");

    assert_eq!(tex.size, 2);
    assert_eq!((tex.width(), tex.height(), tex.depth()), (2, 2, 2));
    assert_eq!(tex.data.len(), 8 * 4);
    // Texel 1 is (r=1,g=0,b=0): red must stay red through the upload.
    assert_eq!(values(&tex.data[4..8]), [1.0, 0.0, 0.0, 1.0]);
}

#[test]
fn tiled_lays_blue_slices_side_by_side() {
    let lut = parse_cube_str(IDENTITY_2).unwrap();
    let tex = build_tiled(&lut).expect("3D lut");

    assert_eq!((tex.width(), tex.height(), tex.depth()), (4, 2, 1));
    assert_eq!(tex.data.len(), 8 * 4);

    // Row 0 holds g=0: slice b=0 in columns 0..2, slice b=1 in columns 2..4.
    // Column 0 is (0,0,0) and column 2 is (0,0,1) - pure blue.
    assert_eq!(values(&tex.data[0..4]), [0.0, 0.0, 0.0, 1.0]);
    assert_eq!(values(&tex.data[8..12]), [0.0, 0.0, 1.0, 1.0]);
}

#[test]
fn both_layouts_hold_the_same_texels() {
    let lut = parse_cube_str(IDENTITY_2).unwrap();
    let vol = build_volume(&lut).unwrap();
    let tiled = build_tiled(&lut).unwrap();
    assert_eq!(vol.data.len(), tiled.data.len(), "same payload, different order");
    assert_eq!(vol.byte_size(), tiled.byte_size());
}

#[test]
fn the_identity_matches_what_the_parser_produces() {
    // The fallback LUT is hand-built, not parsed, so nothing guarantees it
    // agrees with the real thing except a test. If the channel order drifts,
    // "no LUT loaded" would silently mirror the colors.
    let parsed = parse_cube_str(IDENTITY_2).unwrap();

    let vol = LutTexture::identity(LutLayout::Volume3D);
    assert_eq!(vol.data, build_volume(&parsed).unwrap().data);

    let tiled = LutTexture::identity(LutLayout::Tiled2D);
    assert_eq!(tiled.data, build_tiled(&parsed).unwrap().data);
}

#[test]
fn resampling_to_max_preserves_the_transform() {
    // The claim that upsampling costs nothing only holds because the source
    // is interpolated trilinearly and the shader would interpolate the same
    // way. If resampled_to_max ever indexes wrong, this catches it.
    let src = parse_cube_str(IDENTITY_2).unwrap();
    let tex = LutTexture::resampled_to_max(&src, LutLayout::Volume3D).unwrap();
    assert_eq!(tex.size as usize, MAX_LUT_SIZE);

    let n = MAX_LUT_SIZE;
    for &(r, g, b) in &[(0, 0, 0), (n - 1, 0, 0), (0, n - 1, 0), (0, 0, n - 1), (n / 2, n / 3, n - 1)] {
        let dst = (r + g * n + b * n * n) * 4;
        let last = (n - 1) as f32;
        // An identity source must map each cell back to its own position.
        for (ch, idx) in [(r, 0), (g, 1), (b, 2)] {
            assert!((f(tex.data[dst + idx]) - ch as f32 / last).abs() < 1e-5,
                "cell ({r},{g},{b}) channel {idx} drifted: {}", f(tex.data[dst + idx]));
        }
    }
}

#[test]
fn the_max_size_identity_is_flat() {
    let tex = LutTexture::identity_at_max(LutLayout::Volume3D);
    let built = LutTexture::resampled_to_max(&parse_cube_str(IDENTITY_2).unwrap(), LutLayout::Volume3D).unwrap();
    assert_eq!(tex.data.len(), built.data.len());
    for (a, b) in tex.data.iter().zip(built.data.iter()) {
        assert!((f(*a) - f(*b)).abs() < 1e-5, "identity shortcut disagrees with the resampled identity");
    }
}

/// Every backend normalizes by `max_pixel_value` before indexing the LUT and
/// scales back afterwards, because the pipeline works in 0..255 / 0..1023 /
/// 0..65535 rather than 0..1. Four implementations of that step exist - WGSL,
/// OpenCL C, the CPU path and this one - and getting it wrong yields an image
/// that is merely a bit off, not obviously broken. This pins the contract.
#[test]
fn sampling_round_trips_through_the_pipeline_scale() {
    let lut = parse_cube_str(IDENTITY_2).unwrap();

    for max_pixel_value in [255.0f32, 1023.0, 65535.0] {
        for level in [0.0f32, 0.25, 0.5, 1.0] {
            let stored = level * max_pixel_value;
            let normalized = (stored / max_pixel_value).clamp(0.0, 1.0);
            let out = sample(&lut, [normalized, normalized, normalized]);
            let back = out[0] * max_pixel_value;
            assert!((back - stored).abs() < 0.01,
                "identity LUT changed {stored} at scale {max_pixel_value} (got {back})");
        }
    }
}

/// An inverting LUT must actually invert - proof that `sample` applies the
/// table rather than passing the input through, which an identity-only test
/// cannot distinguish.
#[test]
fn an_inverting_lut_inverts() {
    let inverted = parse_cube_str("\
LUT_3D_SIZE 2
1.0 1.0 1.0
0.0 1.0 1.0
1.0 0.0 1.0
0.0 0.0 1.0
1.0 1.0 0.0
0.0 1.0 0.0
1.0 0.0 0.0
0.0 0.0 0.0
").unwrap();

    assert_eq!(sample(&inverted, [0.0, 0.0, 0.0]), [1.0, 1.0, 1.0]);
    assert_eq!(sample(&inverted, [1.0, 1.0, 1.0]), [0.0, 0.0, 0.0]);

    let mid = sample(&inverted, [0.25, 0.25, 0.25]);
    for ch in mid { assert!((ch - 0.75).abs() < 1e-5, "midtone should invert to 0.75, got {ch}"); }
}

/// The intensity slider blends the graded pixel against the original. Four
/// backends implement that line, and the endpoints are what a user notices:
/// 0 must be a true no-op, 1 must be the full grade.
#[test]
fn the_intensity_blend_hits_its_endpoints() {
    let inverted = parse_cube_str("\
LUT_3D_SIZE 2
1.0 1.0 1.0
0.0 1.0 1.0
1.0 0.0 1.0
0.0 0.0 1.0
1.0 1.0 0.0
0.0 1.0 0.0
1.0 0.0 0.0
0.0 0.0 0.0
").unwrap();

    // Mirrors what every shader does: mix(original, graded, amount).
    let blend = |original: f32, amount: f32| -> f32 {
        let graded = sample(&inverted, [original, original, original])[0];
        original + (graded - original) * amount
    };

    for &original in &[0.0f32, 0.25, 0.5, 1.0] {
        assert!((blend(original, 0.0) - original).abs() < 1e-6,
            "amount 0 must leave {original} untouched");
        assert!((blend(original, 1.0) - (1.0 - original)).abs() < 1e-5,
            "amount 1 must fully invert {original}");
        // Half strength lands halfway between the two.
        let expected = original + ((1.0 - original) - original) * 0.5;
        assert!((blend(original, 0.5) - expected).abs() < 1e-5,
            "amount 0.5 must be the midpoint for {original}");
    }
}

#[test]
fn a_1d_lut_has_no_volume_form() {
    let lut = parse_cube_str("LUT_1D_SIZE 2\n0 0 0\n1 1 1\n").unwrap();
    assert!(build_volume(&lut).is_none());
    assert!(build_tiled(&lut).is_none());
}

/// A cube of `n` levels per axis, with a curve of its own on every channel.
fn curved(n: usize) -> Lut {
    let mut text = format!("LUT_3D_SIZE {n}\n");
    for b in 0..n {
        for g in 0..n {
            for r in 0..n {
                let at = |i: usize| i as f32 / (n - 1) as f32;
                let (x, y, z) = (at(r), at(g), at(b));
                text.push_str(&format!("{} {} {}\n", x * x, (y + z) / 2.0, 1.0 - x * z));
            }
        }
    }
    parse_cube_str(&text).expect("parse")
}

#[test]
fn colors_are_clamped_channel_by_channel() {
    let lut = curved(5);
    assert_eq!(sample(&lut, [-3.0, 0.4, 7.5]), sample(&lut, [0.0, 0.4, 1.0]));
    assert_eq!(sample(&lut, [0.2, f32::INFINITY, -0.1]), sample(&lut, [0.2, 1.0, 0.0]));
    assert_eq!(sample(&lut, [-1.0, -1.0, -1.0]), [0.0, 0.0, 1.0]);
    assert_eq!(sample(&lut, [2.0, 2.0, 2.0]), [1.0, 1.0, 0.0]);
}

#[test]
fn a_cube_meets_its_entries() {
    for n in [2usize, 3, 7, 12] {
        let lut = curved(n);
        let at = |i: usize| i as f32 / (n - 1) as f32;
        for i in 0..n {
            let (x, y, z) = (at(i), at(n - 1 - i), at(i / 2));
            let out = sample(&lut, [x, y, z]);
            let expected = [x * x, (y + z) / 2.0, 1.0 - x * z];
            for ch in 0..3 {
                assert!((out[ch] - expected[ch]).abs() < 1e-4, "{n} {i} {ch}");
            }
        }
    }
}

#[test]
fn samples_stay_among_the_entries() {
    let text = IDENTITY_2.replace("1.0", "0.75").replace("0.0 ", "0.25 ").replace(" 0.0", " 0.25");
    let lut = parse_cube_str(&text).expect("parse");
    for i in 0..=20 {
        let x = i as f32 / 20.0;
        for out in sample(&lut, [x, 1.0 - x, x * x]) {
            assert!((0.25 - 1e-6..=0.75 + 1e-6).contains(&out), "{out}");
        }
    }
}

#[test]
fn upsampling_loses_nothing_between_the_cells() {
    for n in [2usize, 5, 17] {
        let lut = curved(n);
        let tex = LutTexture::resampled_to_max(&lut, LutLayout::Volume3D).expect("3D lut");
        let fine = Lut {
            path: String::new(),
            title: None,
            domain_min: colors([0.0; 3]),
            domain_max: colors([1.0; 3]),
            data: LutData::Lut3D {
                size: MAX_LUT_SIZE,
                data: tex.data.chunks(4).map(|c| [c[0], c[1], c[2]]).collect(),
            },
        };
        for c in [[0.3701f32, 0.8113, 0.0527], [0.0078, 0.5, 0.9999], [-2.0, 0.33, 4.0]] {
            let (source, out) = (sample(&lut, c), sample(&fine, c));
            for ch in 0..3 {
                assert!((out[ch] - source[ch]).abs() < 1e-4, "{n} {ch}");
            }
        }
    }
}
