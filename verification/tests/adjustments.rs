use fpvflow_core::color::adjustments;
use fpvflow_core::color::adjustments::{ColorAdjustments, Curve, Powers, Taken};
use fpvflow_core::ieee::single::Single;

type Pixel = [f32; 4];
type Packed = [[Single; 4]; 4];

fn s(v: f32) -> Single {
    Single { bits: v.to_bits() }
}

fn f(v: Single) -> f32 {
    f32::from_bits(v.bits)
}

const CONTRAST_PIVOT: f32 = 0.5;
const EXPOSURE_STOPS: f32 = 2.0;
const LUMINANCE_GAIN: f32 = 0.5;

fn eotf_r709(v: f32) -> f32 {
    match adjustments::eotf_r709(s(v)) {
        Curve::Known(x) => f(x),
        Curve::PowerOf(base) => f(base).powf(1.0 / 0.45),
    }
}

fn oetf_r709(v: f32) -> f32 {
    match adjustments::oetf_r709(s(v)) {
        Curve::Known(x) => f(x),
        Curve::PowerOf(base) => f(adjustments::oetf_power(s(f(base).powf(0.45)))),
    }
}

fn luma(c: &[f32; 3]) -> f32 {
    f(adjustments::luma([s(c[0]), s(c[1]), s(c[2])]))
}

/// The powers that the exposure stage asks for.
fn powers(ch: Single, gain: Single) -> Powers {
    let light = match adjustments::light_of(ch) {
        Curve::Known(v) => v,
        Curve::PowerOf(base) => s(f(base).powf(1.0 / 0.45)),
    };
    let code = match adjustments::code_of(ch, gain, light) {
        Curve::Known(v) => v,
        Curve::PowerOf(base) => s(f(base).powf(0.45)),
    };
    Powers { light, code }
}

/// Supplies the powers and roots that the library asks for.
fn apply(p: &mut Pixel, pos: (f32, f32), adjust: &Packed, max: f32, size: (f32, f32)) {
    let mut px = [s(p[0]), s(p[1]), s(p[2]), s(p[3])];
    let gain = s(f(adjustments::exposure_exponent(adjust[0][0])).exp2());
    let legs = adjustments::vignette_legs((s(pos.0), s(pos.1)), (s(size.0), s(size.1)));
    let taken = Taken {
        gain,
        powers: adjustments::base(px, s(max)).map(|ch| powers(ch, gain)),
        reach: s(f(legs.dx).hypot(f(legs.dy))),
        corner: s(f(legs.half_width).hypot(0.5)),
    };
    adjustments::apply(&mut px, &taken, adjust, s(max));
    *p = [f(px[0]), f(px[1]), f(px[2]), f(px[3])];
}

const SIZE: (f32, f32) = (1920.0, 1080.0);
/// Frame centre, where the vignette must not change anything.
const CENTER: (f32, f32) = (960.0, 540.0);

fn px(r: f32, g: f32, b: f32) -> Pixel { [r, g, b, 1.0] }

/// Builds the packed block with one control set, everything else neutral.
fn one(name: &str, ui_value: f32) -> Packed {
    let mut a = ColorAdjustments::default();
    a.set(name, s(ui_value));
    a.to_gpu()
}

fn apply1(p: &mut Pixel, name: &str, v: f32) {
    apply(p, CENTER, &one(name, v), 1.0, SIZE);
}

/// For every control: neutral is identity.
#[test]
fn every_control_is_identity_at_neutral() {
    for name in ColorAdjustments::names() {
        let mut p = px(0.3, 0.5, 0.7);
        let before = p;
        apply1(&mut p, name, 0.0);
        assert_eq!(p, before, "{name} at 0 must not change the pixel");
    }
    assert!(ColorAdjustments::default().is_identity());
}

/// Each control moves the image the way its name promises.
#[test]
fn every_control_moves_in_the_expected_direction() {
    // Each band is tested inside its own mask: whites only bites above 0.75,
    // so probing it at 0.6 would test nothing.
    for (name, probe) in [
        ("exposure", 0.6f32), ("luminance", 0.6), ("contrast", 0.8),
        ("highlights", 0.8), ("whites", 0.9),
        ("shadows", 0.2), ("blacks", 0.05),
    ] {
        let mut up = px(probe, probe, probe);
        apply1(&mut up, name, 60.0);
        assert!(up[0] > probe, "{name} +60 must brighten {probe}, got {}", up[0]);

        let mut down = px(probe, probe, probe);
        apply1(&mut down, name, -60.0);
        assert!(down[0] < probe, "{name} -60 must darken {probe}, got {}", down[0]);
    }

    let mut warm = px(0.5, 0.5, 0.5);
    apply1(&mut warm, "temperature", 50.0);
    assert!(warm[0] > 0.5 && warm[2] < 0.5, "warm must raise red and lower blue");

    let mut sat = px(0.8, 0.4, 0.2);
    apply1(&mut sat, "saturation", 50.0);
    assert!(sat[0] > 0.8, "more saturation must push the dominant channel out");
}

/// Controls that should differ, differ: collapsing them would silently reduce
/// 13 controls to 11.
#[test]
fn exposure_and_luminance_are_not_the_same_control() {
    let mut a = px(0.25, 0.25, 0.25);
    let mut b = px(0.25, 0.25, 0.25);
    apply1(&mut a, "exposure", 50.0);
    apply1(&mut b, "luminance", 50.0);
    assert!((a[0] - b[0]).abs() > 0.01,
        "exposure and luminance must differ: {} vs {}", a[0], b[0]);
}

#[test]
fn shadows_and_blacks_use_different_masks() {
    // A pixel in the shadow region but above the blacks band: shadows should
    // move it clearly more than blacks does.
    let mut s = px(0.35, 0.35, 0.35);
    let mut b = px(0.35, 0.35, 0.35);
    apply1(&mut s, "shadows", 80.0);
    apply1(&mut b, "blacks", 80.0);
    assert!((s[0] - b[0]).abs() > 0.01,
        "shadows and blacks must have distinct masks: {} vs {}", s[0], b[0]);
}

#[test]
fn highlights_and_whites_use_different_masks() {
    let mut h = px(0.6, 0.6, 0.6);
    let mut w = px(0.6, 0.6, 0.6);
    apply1(&mut h, "highlights", 80.0);
    apply1(&mut w, "whites", 80.0);
    assert!((h[0] - w[0]).abs() > 0.01,
        "highlights and whites must have distinct masks: {} vs {}", h[0], w[0]);
}

/// Bipolar controls are symmetric around neutral.
#[test]
fn bipolar_controls_reverse_around_neutral() {
    for name in ["exposure", "luminance", "contrast", "saturation", "temperature", "tint"] {
        let base = 0.5f32;
        let mut up = px(base, base, base);
        let mut down = px(base, base, base);
        apply1(&mut up, name, 40.0);
        apply1(&mut down, name, -40.0);
        // One goes up and the other down, or (for contrast at the pivot)
        // both stay - what must not happen is both moving the same way.
        let du = up[0] - base;
        let dd = down[0] - base;
        assert!(du * dd <= 1e-6, "{name}: +40 and -40 must not move the same way ({du} vs {dd})");
    }
}

#[test]
fn contrast_pivots_at_the_spec_value() {
    // A pixel exactly at the pivot must not move - that is what makes
    // contrast a rotation rather than a brightness change.
    let mut p = px(CONTRAST_PIVOT, CONTRAST_PIVOT, CONTRAST_PIVOT);
    apply1(&mut p, "contrast", 50.0);
    for ch in 0..3 {
        assert!((p[ch] - CONTRAST_PIVOT).abs() < 1e-5,
            "the pivot must stay put, got {}", p[ch]);
    }

    let mut hi = px(0.7, 0.7, 0.7);
    apply1(&mut hi, "contrast", 50.0);
    assert!(hi[0] > 0.7, "above the pivot must brighten");

    let mut lo = px(0.3, 0.3, 0.3);
    apply1(&mut lo, "contrast", 50.0);
    assert!(lo[0] < 0.3, "below the pivot must darken");
}

#[test]
fn exposure_doubles_light_per_stop() {
    // +100 is EXPOSURE_STOPS, so half of it is one stop: the linear light
    // must double. This is what linearizing buys, and testing it in linear
    // space is the only way to see it.
    let start = 0.2f32;
    let mut p = px(start, start, start);
    apply1(&mut p, "exposure", 100.0 / EXPOSURE_STOPS);
    let got = eotf_r709(p[0]);
    let want = eotf_r709(start) * 2.0;
    assert!((got - want).abs() < 1e-4,
        "one stop must double linear light: {got} vs {want}");
}

#[test]
fn full_desaturation_lands_on_luma() {
    let mut p = px(0.8, 0.4, 0.2);
    let expected = luma(&[0.8, 0.4, 0.2]);
    apply1(&mut p, "saturation", -100.0);
    for ch in 0..3 {
        assert!((p[ch] - expected).abs() < 1e-5,
            "saturation -100 must collapse to luma {expected}, got {}", p[ch]);
    }
}

#[test]
fn a_grey_pixel_stays_grey_when_desaturated() {
    // Guards the luma weights: if they did not sum to 1, grey would drift.
    let mut p = px(0.5, 0.5, 0.5);
    apply1(&mut p, "saturation", -100.0);
    for ch in 0..3 { assert!((p[ch] - 0.5).abs() < 1e-5, "grey drifted to {}", p[ch]); }
}

/// Vibrance is saturation that protects what is already saturated - if it
/// behaved like plain saturation, it would be a duplicate control.
#[test]
fn vibrance_protects_already_saturated_pixels() {
    let vivid = [0.95, 0.05, 0.05];
    let muted = [0.55, 0.45, 0.45];

    let gain_of = |c: [f32; 3]| {
        let mut p = px(c[0], c[1], c[2]);
        apply1(&mut p, "vibrance", 80.0);
        let l = luma(&c);
        // How much the channel spread grew.
        (p[0] - l).abs() / (c[0] - l).abs().max(1e-6)
    };

    assert!(gain_of(muted) > gain_of(vivid),
        "vibrance must push muted pixels harder than vivid ones");
}

#[test]
fn the_vignette_is_bipolar_and_spares_the_centre() {
    let mut center = px(0.8, 0.8, 0.8);
    apply1(&mut center, "vignette", -80.0);
    assert!((center[0] - 0.8).abs() < 1e-5, "the centre must not change, got {}", center[0]);

    let mut dark = px(0.8, 0.8, 0.8);
    apply(&mut dark, (0.0, 0.0), &one("vignette", -80.0), 1.0, SIZE);
    assert!(dark[0] < 0.5, "negative must darken the corner, got {}", dark[0]);

    let mut light = px(0.4, 0.4, 0.4);
    apply(&mut light, (0.0, 0.0), &one("vignette", 80.0), 1.0, SIZE);
    assert!(light[0] > 0.4, "positive must lighten the corner, got {}", light[0]);
}

#[test]
fn the_vignette_is_round_not_elliptical() {
    // Without the aspect correction a 16:9 frame gets an ellipse, and the
    // left edge would darken differently from the top.
    let (w, h) = SIZE;
    let r = 0.4f32;
    let aspect = w / h;

    let mut horizontal = px(0.8, 0.8, 0.8);
    apply(&mut horizontal, (w * (0.5 + r / aspect), h * 0.5), &one("vignette", -80.0), 1.0, SIZE);
    let mut vertical = px(0.8, 0.8, 0.8);
    apply(&mut vertical, (w * 0.5, h * (0.5 + r)), &one("vignette", -80.0), 1.0, SIZE);

    assert!((horizontal[0] - vertical[0]).abs() < 1e-4,
        "equal radii must darken equally: {} vs {}", horizontal[0], vertical[0]);
}

/// No banding. A synthetic gradient pushed hard must stay
/// monotonic with no repeated steps - proof the work is in float.
#[test]
fn a_gradient_survives_extreme_settings_without_banding() {
    let mut a = ColorAdjustments::default();
    a.set("contrast", s(100.0));
    a.set("saturation", s(80.0));
    a.set("shadows", s(-60.0));
    let packed = a.to_gpu();

    const N: usize = 512;
    let mut last = -1.0f32;
    let mut flat_runs = 0;
    for i in 0..N {
        let v = i as f32 / (N - 1) as f32;
        let mut p = px(v, v, v);
        apply(&mut p, CENTER, &packed, 1.0, SIZE);
        assert!(p[0] >= last - 1e-6, "the gradient must stay monotonic at {v}");
        // Count consecutive identical outputs away from the clamped ends.
        if (p[0] - last).abs() < 1e-9 && p[0] > 0.001 && p[0] < 0.999 { flat_runs += 1; }
        last = p[0];
    }
    assert!(flat_runs < N / 8, "too many repeated values ({flat_runs}) - that is banding");
}

#[test]
fn the_scale_round_trips_at_every_bit_depth() {
    // Each backend divides by max_pixel_value and multiplies back; getting
    // that wrong yields an image that is merely a bit off.
    for max in [255.0f32, 1023.0, 65535.0] {
        let mut p = [0.5 * max, 0.5 * max, 0.5 * max, max];
        apply(&mut p, CENTER, &one("luminance", 100.0), max, SIZE);
        let expected = (0.5 * (1.0 + LUMINANCE_GAIN)).clamp(0.0, 1.0) * max;
        assert!((p[0] - expected).abs() < max * 0.001,
            "at scale {max} expected {expected}, got {}", p[0]);
    }
}

#[test]
fn values_are_clamped_into_range() {
    let mut p = px(0.9, 0.9, 0.9);
    apply1(&mut p, "exposure", 100.0);
    for ch in 0..3 { assert!(p[ch] <= 1.0, "must not exceed 1.0, got {}", p[ch]); }

    let mut p = px(0.1, 0.1, 0.1);
    apply1(&mut p, "exposure", -100.0);
    for ch in 0..3 { assert!(p[ch] >= 0.0, "must not go below 0.0, got {}", p[ch]); }
}

#[test]
fn alpha_is_never_touched() {
    let mut a = ColorAdjustments::default();
    for name in ColorAdjustments::names() { a.set(name, s(50.0)); }
    let mut p = [0.5, 0.5, 0.5, 0.25];
    apply(&mut p, CENTER, &a.to_gpu(), 1.0, SIZE);
    assert_eq!(p[3], 0.25, "alpha must survive every adjustment");
}

#[test]
fn the_transfer_functions_are_inverses() {
    for i in 0..=100 {
        let v = i as f32 / 100.0;
        assert!((oetf_r709(eotf_r709(v)) - v).abs() < 1e-4,
            "eotf/oetf must round-trip at {v}");
    }
}

#[test]
fn set_clamps_to_the_documented_ranges() {
    let mut a = ColorAdjustments::default();
    a.set("exposure", s(500.0));
    assert_eq!(f(a.exposure), 100.0);
    a.set("exposure", s(-500.0));
    assert_eq!(f(a.exposure), -100.0);
    // Sharpness is one-sided.
    a.set("sharpness", s(-50.0));
    assert_eq!(f(a.sharpness), 0.0);
    // An unknown name must not panic or corrupt anything.
    a.set("nonsense", s(42.0));
    assert_eq!(f(a.get("nonsense")), 0.0);
}

#[test]
fn the_vignette_multiplies_the_corner_by_one_plus_its_amount() {
    for vignette in [-1.0f32, -0.5, -0.001, 0.001, 0.25, 1.0] {
        let mut packed: Packed = [[s(0.0); 4]; 4];
        packed[2][3] = s(vignette);
        let before = px(0.25, 0.5, 0.75);
        for pos in [(0.0, 0.0), SIZE, (SIZE.0, 0.0), (0.0, SIZE.1)] {
            let mut p = before;
            apply(&mut p, pos, &packed, 1.0, SIZE);
            for ch in 0..3 {
                assert_eq!(p[ch], (before[ch] * (1.0 + vignette)).clamp(0.0, 1.0));
                assert_eq!(p[ch] < before[ch], vignette < 0.0);
                assert_eq!(p[ch] > before[ch], vignette > 0.0);
            }
        }
    }
    // Too small to tell one plus it from one.
    let mut packed: Packed = [[s(0.0); 4]; 4];
    packed[2][3] = s(-1e-10);
    let mut p = px(0.25, 0.5, 0.75);
    apply(&mut p, (0.0, 0.0), &packed, 1.0, SIZE);
    assert_eq!(p, px(0.25, 0.5, 0.75));
}

#[test]
fn pixels_equally_far_from_the_centre_come_out_alike() {
    let mut packed: Packed = [[s(0.0); 4]; 4];
    packed[2][3] = s(-0.6);
    let shade = |x: f32, y: f32| {
        let mut p = px(0.3, 0.6, 0.9);
        apply(&mut p, (x, y), &packed, 1.0, (1024.0, 1024.0));
        p
    };
    let p = shade(512.0 + 384.0, 512.0 + 128.0);
    assert!(p[0] < 0.3);
    assert_eq!(p, shade(512.0 - 384.0, 512.0 + 128.0));
    assert_eq!(p, shade(512.0 + 128.0, 512.0 - 384.0));
    assert_ne!(p, shade(512.0, 512.0 - 128.0));
}

#[test]
fn vibrance_spreads_vivid_colors_less() {
    // Spread of the red channel from the luma, after over before.
    let gain = |c: [f32; 3], vibrance: f32| {
        let mut packed: Packed = [[s(0.0); 4]; 4];
        packed[2][2] = s(vibrance);
        let mut p = px(c[0], c[1], c[2]);
        apply(&mut p, CENTER, &packed, 1.0, SIZE);
        (p[0] - luma(&c)) / (c[0] - luma(&c))
    };
    let muted = [0.55f32, 0.5, 0.45];
    let vivid = [0.7f32, 0.5, 0.3];
    assert!((gain(muted, 0.5) - 1.45).abs() < 1e-4);
    assert!((gain(vivid, 0.5) - 1.3).abs() < 1e-4);
    assert!(1.0 < gain(vivid, 0.5) && gain(vivid, 0.5) < gain(muted, 0.5));
    assert!(gain(muted, -0.5) < gain(vivid, -0.5) && gain(vivid, -0.5) < 1.0);
}

#[test]
fn the_pixel_scale_does_not_tell() {
    let mut packed: Packed = [[s(0.0); 4]; 4];
    packed[0][1] = s(0.3);
    packed[0][2] = s(-0.2);
    packed[1][0] = s(0.4);
    packed[1][3] = s(0.1);
    packed[2][1] = s(0.5);
    packed[2][2] = s(-0.3);
    packed[2][3] = s(-0.5);
    for c in [[0.1f32, 0.5, 0.9], [0.33, 0.34, 0.35], [1.0, 0.0, 0.7]] {
        let mut unit = px(c[0], c[1], c[2]);
        apply(&mut unit, (100.0, 200.0), &packed, 1.0, SIZE);
        for max in [255.0f32, 1023.0, 65535.0] {
            let scaled = [s(c[0] * max), s(c[1] * max), s(c[2] * max), s(max)];
            let back = adjustments::base(scaled, s(max));
            let mut p = [c[0] * max, c[1] * max, c[2] * max, max];
            apply(&mut p, (100.0, 200.0), &packed, max, SIZE);
            for ch in 0..3 {
                assert!((f(back[ch]) - c[ch]).abs() <= 2.25 / 16_777_216.0);
                assert!((p[ch] - unit[ch] * max).abs() < 0.001 * max);
            }
            if back.iter().zip(c).all(|(b, v)| f(*b) == v) {
                assert_eq!(p[0], unit[0] * max);
            }
        }
    }
}

/// The twelve per-pixel controls, each at one end or the other.
fn at_the_ends(pattern: u32, exposure: bool) -> Packed {
    let mut packed: Packed = [[s(0.0); 4]; 4];
    for i in 0..12 {
        packed[i / 4][i % 4] = s(if (pattern >> i) & 1 == 1 { 1.0 } else { -1.0 });
    }
    if !exposure {
        packed[0][0] = s(0.0);
    }
    packed
}

#[test]
fn every_control_agrees_on_every_scale() {
    for pattern in (0..4096).step_by(37) {
        let packed = at_the_ends(pattern, false);
        for c in [[0.1f32, 0.5, 0.9], [0.02, 0.03, 0.6], [1.0, 0.0, 0.7], [0.49, 0.5, 0.51]] {
            let mut unit = px(c[0], c[1], c[2]);
            apply(&mut unit, (100.0, 200.0), &packed, 1.0, SIZE);
            for max in [255.0f32, 1023.0, 65535.0] {
                let mut p = [c[0] * max, c[1] * max, c[2] * max, max];
                apply(&mut p, (100.0, 200.0), &packed, max, SIZE);
                for ch in 0..3 {
                    assert!((p[ch] - unit[ch] * max).abs() < 0.001 * max);
                }
            }
        }
    }
}

#[test]
fn every_control_stays_on_the_scale() {
    for pattern in (0..4096).step_by(37) {
        let packed = at_the_ends(pattern, true);
        for c in [[0.0f32, 0.0, 0.0], [1.0, 1.0, 1.0], [1.0, 0.0, 0.0], [0.2, 0.4, 0.6]] {
            for max in [1.0f32, 255.0] {
                let mut p = [c[0] * max, c[1] * max, c[2] * max, max];
                apply(&mut p, (0.0, 0.0), &packed, max, SIZE);
                for ch in 0..3 {
                    assert!(p[ch] >= 0.0 && p[ch] <= max);
                }
            }
        }
    }
}
