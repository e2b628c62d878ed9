//! Per-pixel color adjustments, applied after the LUT.
//!
//! Color operations do not commute, so the order is part of the result:
//!
//! ```text
//! exposure -> luminance -> contrast -> blacks -> shadows -> highlights
//!   -> whites -> temperature -> tint -> saturation -> vibrance -> vignette
//!   -> clamp
//! ```
//!
//! Everything runs on Rec.709 display-encoded values. Exposure is the one
//! exception: it linearizes, applies the gain and encodes back, because light
//! multiplies in linear space. The powers and roots this takes come from the
//! caller; what they are taken of, and what becomes of them, is decided here.

use crate::ieee::single::Single;
use crate::text;
use vstd::prelude::*;

verus! {

// Calibration constants, as bit patterns.

/// Rec.709 luma weights: 0.2126, 0.7152 and 0.0722.
pub const LUMA_RED: u32 = 0x3e59_b3d0;

pub const LUMA_GREEN: u32 = 0x3f37_1759;

pub const LUMA_BLUE: u32 = 0x3d93_dd98;

/// Exposure travel at the ends of the slider, in stops: 2.0.
pub const EXPOSURE_STOPS: u32 = 0x4000_0000;

/// Luminance gain at the ends, as a fraction: 0.5.
pub const LUMINANCE_GAIN: u32 = 0x3f00_0000;

/// Pivot contrast rotates around, in display space: 0.5.
pub const CONTRAST_PIVOT: u32 = 0x3f00_0000;

/// How far the four tonal bands can push their region: 0.5.
pub const TONAL_STRENGTH: u32 = 0x3f00_0000;

/// Channel tilt at the ends for white balance: 0.2.
pub const WB_STRENGTH: u32 = 0x3e4c_cccd;

/// Radius where the vignette starts falling off, and where it ends: 0.3 and 1.0.
pub const VIGNETTE_INNER: u32 = 0x3e99_999a;

pub const VIGNETTE_OUTER: u32 = 0x3f80_0000;

/// Mask edges for the four tonal bands: 0.0 and 0.25, 0.0 and 0.5, 0.5 and 1.0,
/// 0.75 and 1.0. Overlapping on purpose: the bands have to cover the tonal range
/// without gaps, and hard edges would band.
pub const BLACKS_FROM: u32 = 0;

pub const BLACKS_TO: u32 = 0x3e80_0000;

pub const SHADOWS_FROM: u32 = 0;

pub const SHADOWS_TO: u32 = 0x3f00_0000;

pub const HIGHLIGHTS_FROM: u32 = 0x3f00_0000;

pub const HIGHLIGHTS_TO: u32 = 0x3f80_0000;

pub const WHITES_FROM: u32 = 0x3f40_0000;

pub const WHITES_TO: u32 = 0x3f80_0000;

/// 100.0, the end of a slider.
pub const FULL: u32 = 0x42c8_0000;

/// -100.0, the other end.
pub const FULL_BELOW: u32 = 0xc2c8_0000;

/// 0.5, 2.0 and 3.0.
pub const HALF: u32 = 0x3f00_0000;

pub const TWO: u32 = 0x4000_0000;

pub const THREE: u32 = 0x4040_0000;

/// Every adjustment, as the user sees it: -100..100 (0..100 for sharpness),
/// neutral at 0.
///
/// UI values are stored and normalized at the shader boundary, so there is
/// exactly one place where the division by 100 happens.
#[derive(Clone, Copy, Debug, PartialEq)]
pub struct ColorAdjustments {
    // Light
    pub exposure: Single,
    pub luminance: Single,
    pub contrast: Single,
    pub highlights: Single,
    pub shadows: Single,
    pub whites: Single,
    pub blacks: Single,
    // Color
    pub temperature: Single,
    pub tint: Single,
    pub saturation: Single,
    pub vibrance: Single,
    // Effect
    /// 0..100, neutral 0. Runs in the spatial stage, not the per-pixel one.
    pub sharpness: Single,
    /// -100..100, neutral 0. Negative darkens the corners, positive lightens.
    pub vignette: Single,
}

/// One of the adjustments.
#[derive(Clone, Copy, Debug, PartialEq, Eq, Structural)]
pub enum Control {
    Exposure,
    Luminance,
    Contrast,
    Highlights,
    Shadows,
    Whites,
    Blacks,
    Temperature,
    Tint,
    Saturation,
    Vibrance,
    Sharpness,
    Vignette,
}

/// The control that a name stands for, in the UI and in the project file.
pub open spec fn control_named(name: Seq<char>) -> Option<Control> {
    if name == "exposure"@ {
        Some(Control::Exposure)
    } else if name == "luminance"@ {
        Some(Control::Luminance)
    } else if name == "contrast"@ {
        Some(Control::Contrast)
    } else if name == "highlights"@ {
        Some(Control::Highlights)
    } else if name == "shadows"@ {
        Some(Control::Shadows)
    } else if name == "whites"@ {
        Some(Control::Whites)
    } else if name == "blacks"@ {
        Some(Control::Blacks)
    } else if name == "temperature"@ {
        Some(Control::Temperature)
    } else if name == "tint"@ {
        Some(Control::Tint)
    } else if name == "saturation"@ {
        Some(Control::Saturation)
    } else if name == "vibrance"@ {
        Some(Control::Vibrance)
    } else if name == "sharpness"@ {
        Some(Control::Sharpness)
    } else if name == "vignette"@ {
        Some(Control::Vignette)
    } else {
        None
    }
}

/// [`control_named`], computed.
fn find_control(name: &str) -> (c: Option<Control>)
    ensures
        c == control_named(name@),
{
    if text::same_text(name, "exposure") {
        Some(Control::Exposure)
    } else if text::same_text(name, "luminance") {
        Some(Control::Luminance)
    } else if text::same_text(name, "contrast") {
        Some(Control::Contrast)
    } else if text::same_text(name, "highlights") {
        Some(Control::Highlights)
    } else if text::same_text(name, "shadows") {
        Some(Control::Shadows)
    } else if text::same_text(name, "whites") {
        Some(Control::Whites)
    } else if text::same_text(name, "blacks") {
        Some(Control::Blacks)
    } else if text::same_text(name, "temperature") {
        Some(Control::Temperature)
    } else if text::same_text(name, "tint") {
        Some(Control::Tint)
    } else if text::same_text(name, "saturation") {
        Some(Control::Saturation)
    } else if text::same_text(name, "vibrance") {
        Some(Control::Vibrance)
    } else if text::same_text(name, "sharpness") {
        Some(Control::Sharpness)
    } else if text::same_text(name, "vignette") {
        Some(Control::Vignette)
    } else {
        None
    }
}

/// A control that is off neutral; a NaN counts as off.
pub open spec fn active(v: Single) -> bool {
    !v.equals(Single::zero())
}

/// A value held within the range of a control: 0..100 for sharpness, -100..100
/// for every other.
pub open spec fn in_range(c: Control, v: Single) -> Single {
    let low = if c == Control::Sharpness {
        Single::zero()
    } else {
        Single { bits: FULL_BELOW }
    };
    v.clamped(low, Single { bits: FULL })
}

impl Default for ColorAdjustments {
    fn default() -> (r: ColorAdjustments)
        ensures
            forall|c: Control| #[trigger] r.value(c) == Single::zero(),
    {
        let zero = Single::zero();
        ColorAdjustments {
            exposure: zero,
            luminance: zero,
            contrast: zero,
            highlights: zero,
            shadows: zero,
            whites: zero,
            blacks: zero,
            temperature: zero,
            tint: zero,
            saturation: zero,
            vibrance: zero,
            sharpness: zero,
            vignette: zero,
        }
    }
}

impl ColorAdjustments {
    /// What a control is set to.
    pub open spec fn value(&self, c: Control) -> Single {
        match c {
            Control::Exposure => self.exposure,
            Control::Luminance => self.luminance,
            Control::Contrast => self.contrast,
            Control::Highlights => self.highlights,
            Control::Shadows => self.shadows,
            Control::Whites => self.whites,
            Control::Blacks => self.blacks,
            Control::Temperature => self.temperature,
            Control::Tint => self.tint,
            Control::Saturation => self.saturation,
            Control::Vibrance => self.vibrance,
            Control::Sharpness => self.sharpness,
            Control::Vignette => self.vignette,
        }
    }

    /// What is read under a name; 0 for an unknown one.
    pub open spec fn reading(&self, name: Seq<char>) -> Single {
        match control_named(name) {
            Some(c) => self.value(c),
            None => Single::zero(),
        }
    }

    /// This is what writing `v` under a name leaves of `before`: the control of
    /// that name holds the value, within its range, and no other changes. An
    /// unknown name changes nothing.
    pub open spec fn results_from(self, before: ColorAdjustments, name: Seq<char>, v: Single) -> bool {
        match control_named(name) {
            Some(c) => {
                &&& self.value(c) == in_range(c, v)
                &&& forall|d: Control| d != c ==> #[trigger] self.value(d) == before.value(d)
            },
            None => self == before,
        }
    }

    /// Every control is at neutral.
    pub open spec fn neutral(&self) -> bool {
        forall|c: Control| !active(#[trigger] self.value(c))
    }

    /// Whether nothing would change, so the whole stage can be skipped.
    pub fn is_identity(&self) -> (b: bool)
        ensures
            b == self.neutral(),
    {
        let zero = Single::zero();
        proof {
            assert(self.value(Control::Exposure) == self.exposure);
            assert(self.value(Control::Luminance) == self.luminance);
            assert(self.value(Control::Contrast) == self.contrast);
            assert(self.value(Control::Highlights) == self.highlights);
            assert(self.value(Control::Shadows) == self.shadows);
            assert(self.value(Control::Whites) == self.whites);
            assert(self.value(Control::Blacks) == self.blacks);
            assert(self.value(Control::Temperature) == self.temperature);
            assert(self.value(Control::Tint) == self.tint);
            assert(self.value(Control::Saturation) == self.saturation);
            assert(self.value(Control::Vibrance) == self.vibrance);
            assert(self.value(Control::Sharpness) == self.sharpness);
            assert(self.value(Control::Vignette) == self.vignette);
        }
        self.exposure.equals(zero)
            && self.luminance.equals(zero)
            && self.contrast.equals(zero)
            && self.highlights.equals(zero)
            && self.shadows.equals(zero)
            && self.whites.equals(zero)
            && self.blacks.equals(zero)
            && self.temperature.equals(zero)
            && self.tint.equals(zero)
            && self.saturation.equals(zero)
            && self.vibrance.equals(zero)
            && self.sharpness.equals(zero)
            && self.vignette.equals(zero)
    }

    /// Reads one value by the name the UI and the project file use; 0 for an
    /// unknown name.
    pub fn get(&self, name: &str) -> (v: Single)
        ensures
            v == self.reading(name@),
    {
        match find_control(name) {
            Some(Control::Exposure) => self.exposure,
            Some(Control::Luminance) => self.luminance,
            Some(Control::Contrast) => self.contrast,
            Some(Control::Highlights) => self.highlights,
            Some(Control::Shadows) => self.shadows,
            Some(Control::Whites) => self.whites,
            Some(Control::Blacks) => self.blacks,
            Some(Control::Temperature) => self.temperature,
            Some(Control::Tint) => self.tint,
            Some(Control::Saturation) => self.saturation,
            Some(Control::Vibrance) => self.vibrance,
            Some(Control::Sharpness) => self.sharpness,
            Some(Control::Vignette) => self.vignette,
            None => Single::zero(),
        }
    }

    /// Writes one value by name, held within its range, and says whether the
    /// name is known. An unknown name changes nothing, so a project written by a
    /// newer version still loads.
    pub fn set(&mut self, name: &str, v: Single) -> (known: bool)
        ensures
            known == (control_named(name@) is Some),
            final(self).results_from(*old(self), name@, v),
    {
        let c = match find_control(name) {
            None => {
                return false;
            },
            Some(c) => c,
        };
        let low = match c {
            Control::Sharpness => Single::zero(),
            _ => Single { bits: FULL_BELOW },
        };
        let v = v.clamped(low, Single { bits: FULL });
        match c {
            Control::Exposure => {
                self.exposure = v;
            },
            Control::Luminance => {
                self.luminance = v;
            },
            Control::Contrast => {
                self.contrast = v;
            },
            Control::Highlights => {
                self.highlights = v;
            },
            Control::Shadows => {
                self.shadows = v;
            },
            Control::Whites => {
                self.whites = v;
            },
            Control::Blacks => {
                self.blacks = v;
            },
            Control::Temperature => {
                self.temperature = v;
            },
            Control::Tint => {
                self.tint = v;
            },
            Control::Saturation => {
                self.saturation = v;
            },
            Control::Vibrance => {
                self.vibrance = v;
            },
            Control::Sharpness => {
                self.sharpness = v;
            },
            Control::Vignette => {
                self.vignette = v;
            },
        }
        true
    }

    /// The names in pipeline order, for the UI and for iterating.
    pub fn names() -> (r: [&'static str; 13])
        ensures
            forall|i: int| 0 <= i < 13 ==> control_named((#[trigger] r[i])@) is Some,
            r[0]@ == "exposure"@,
            r[1]@ == "luminance"@,
            r[2]@ == "contrast"@,
            r[3]@ == "highlights"@,
            r[4]@ == "shadows"@,
            r[5]@ == "whites"@,
            r[6]@ == "blacks"@,
            r[7]@ == "temperature"@,
            r[8]@ == "tint"@,
            r[9]@ == "saturation"@,
            r[10]@ == "vibrance"@,
            r[11]@ == "sharpness"@,
            r[12]@ == "vignette"@,
    {
        [
            "exposure",
            "luminance",
            "contrast",
            "highlights",
            "shadows",
            "whites",
            "blacks",
            "temperature",
            "tint",
            "saturation",
            "vibrance",
            "sharpness",
            "vignette",
        ]
    }

    /// A slider value as the shaders take it.
    pub open spec fn scaled(v: Single) -> Single {
        v.over(Single { bits: FULL })
    }

    /// The four blocks of [`ColorAdjustments::to_gpu`].
    pub open spec fn packed(&self) -> [[Single; 4]; 4] {
        [
            [
                Self::scaled(self.exposure),
                Self::scaled(self.luminance),
                Self::scaled(self.contrast),
                Self::scaled(self.highlights),
            ],
            [
                Self::scaled(self.shadows),
                Self::scaled(self.whites),
                Self::scaled(self.blacks),
                Self::scaled(self.temperature),
            ],
            [
                Self::scaled(self.tint),
                Self::scaled(self.saturation),
                Self::scaled(self.vibrance),
                Self::scaled(self.vignette),
            ],
            [Self::scaled(self.sharpness), Single::zero(), Single::zero(), Single::zero()],
        ]
    }

    fn scale(v: Single) -> (r: Single)
        ensures
            r == Self::scaled(v),
    {
        v.over(Single { bits: FULL })
    }

    /// Packs into the four `vec4`s the kernel parameters carry, normalized to
    /// -1..1. Sharpness is consumed by the spatial stage; the rest of its block
    /// keeps the alignment.
    pub fn to_gpu(&self) -> (r: [[Single; 4]; 4])
        ensures
            r == self.packed(),
    {
        let zero = Single::zero();
        [
            [
                Self::scale(self.exposure),
                Self::scale(self.luminance),
                Self::scale(self.contrast),
                Self::scale(self.highlights),
            ],
            [
                Self::scale(self.shadows),
                Self::scale(self.whites),
                Self::scale(self.blacks),
                Self::scale(self.temperature),
            ],
            [
                Self::scale(self.tint),
                Self::scale(self.saturation),
                Self::scale(self.vibrance),
                Self::scale(self.vignette),
            ],
            [Self::scale(self.sharpness), zero, zero, zero],
        ]
    }
}

/// 0.081, below which the display curve is a straight line.
pub const LINEAR_TO: u32 = 0x3da5_e354;

/// 0.018, the same end in linear light.
pub const LIGHT_LINEAR_TO: u32 = 0x3c93_74bc;

/// 4.5, slope of the line.
pub const SLOPE: u32 = 0x4090_0000;

/// 0.099 and 1.099, offset and scale of the power part.
pub const CURVE_OFFSET: u32 = 0x3dca_c083;

pub const CURVE_SCALE: u32 = 0x3f8c_ac08;

/// A value of a transfer curve: on the straight part it is known, on the power
/// part it takes a power of a base.
#[derive(Clone, Copy, Debug, PartialEq)]
pub enum Curve {
    Known(Single),
    PowerOf(Single),
}

/// Rec.709 EOTF - display-encoded to linear light.
pub open spec fn eotf(v: Single) -> Curve {
    if v.less(Single { bits: LINEAR_TO }) {
        Curve::Known(v.over(Single { bits: SLOPE }))
    } else {
        Curve::PowerOf(v.plus(Single { bits: CURVE_OFFSET }).over(Single { bits: CURVE_SCALE }))
    }
}

/// Rec.709 EOTF - display-encoded to linear light.
///
/// The power part is the base given to the power 1 / 0.45. Exposure needs this:
/// doubling light is a multiply in linear space, and doing it on gamma-encoded
/// values would brighten midtones far more than highlights.
pub fn eotf_r709(v: Single) -> (r: Curve)
    ensures
        r == eotf(v),
{
    if v.less(Single { bits: LINEAR_TO }) {
        Curve::Known(v.over(Single { bits: SLOPE }))
    } else {
        Curve::PowerOf(v.plus(Single { bits: CURVE_OFFSET }).over(Single { bits: CURVE_SCALE }))
    }
}

/// Rec.709 OETF - linear light to display-encoded.
pub open spec fn oetf(v: Single) -> Curve {
    if v.less(Single { bits: LIGHT_LINEAR_TO }) {
        Curve::Known(v.times(Single { bits: SLOPE }))
    } else {
        Curve::PowerOf(v)
    }
}

/// Rec.709 OETF - linear light back to display-encoded.
///
/// On the power part the result is [`oetf_power`] of the base to the power 0.45.
pub fn oetf_r709(v: Single) -> (r: Curve)
    ensures
        r == oetf(v),
{
    if v.less(Single { bits: LIGHT_LINEAR_TO }) {
        Curve::Known(v.times(Single { bits: SLOPE }))
    } else {
        Curve::PowerOf(v)
    }
}

pub open spec fn spec_oetf_power(p: Single) -> Single {
    Single { bits: CURVE_SCALE }.times(p).minus(Single { bits: CURVE_OFFSET })
}

/// The display-encoded value for the power `p` that the OETF asked for.
#[verifier::when_used_as_spec(spec_oetf_power)]
pub fn oetf_power(p: Single) -> (r: Single)
    ensures
        r == spec_oetf_power(p),
{
    Single { bits: CURVE_SCALE }.times(p).minus(Single { bits: CURVE_OFFSET })
}

/// The powers of one channel that the exposure stage asks for.
#[derive(Clone, Copy, Debug, PartialEq)]
pub struct Powers {
    /// The base of [`light_of`] to the power 1 / 0.45.
    pub light: Single,
    /// The base of [`code_of`] to the power 0.45.
    pub code: Single,
}

/// A value of a transfer curve, given the power that it may take.
pub open spec fn resolved(c: Curve, power: Single) -> Single {
    match c {
        Curve::Known(v) => v,
        Curve::PowerOf(_) => power,
    }
}

/// The light of a channel, nothing below zero being there.
pub open spec fn light(ch: Single) -> Curve {
    eotf(ch.greater_of(Single::zero()))
}

/// The light of a channel, nothing below zero being there: where the exposure
/// stage starts from.
pub fn light_of(ch: Single) -> (r: Curve)
    ensures
        r == light(ch),
{
    eotf_r709(ch.greater_of(Single::zero()))
}

/// The code of a channel whose light is multiplied by `gain`; `power` is the one
/// that its light may take.
pub open spec fn code(ch: Single, gain: Single, power: Single) -> Curve {
    oetf(resolved(light(ch), power).times(gain))
}

/// The code of a channel whose light is multiplied by `gain`: where the exposure
/// stage ends. `power` is the one that [`light_of`] asked for, if it did.
pub fn code_of(ch: Single, gain: Single, power: Single) -> (r: Curve)
    ensures
        r == code(ch, gain, power),
{
    let light = match light_of(ch) {
        Curve::Known(v) => v,
        Curve::PowerOf(_) => power,
    };
    oetf_r709(light.times(gain))
}

/// A channel after the exposure stage.
pub open spec fn exposed(ch: Single, gain: Single, powers: Powers) -> Single {
    match code(ch, gain, powers.light) {
        Curve::Known(v) => v,
        Curve::PowerOf(_) => oetf_power(powers.code),
    }
}

fn expose(ch: Single, gain: Single, powers: Powers) -> (r: Single)
    ensures
        r == exposed(ch, gain, powers),
{
    match code_of(ch, gain, powers.light) {
        Curve::Known(v) => v,
        Curve::PowerOf(_) => oetf_power(powers.code),
    }
}

/// Exposure, in stops, in linear light.
pub open spec fn with_exposure(
    c: [Single; 3],
    exposure: Single,
    gain: Single,
    powers: [Powers; 3],
) -> [Single; 3] {
    if active(exposure) {
        [
            exposed(c[0], gain, powers[0]),
            exposed(c[1], gain, powers[1]),
            exposed(c[2], gain, powers[2]),
        ]
    } else {
        c
    }
}

fn apply_exposure(c: [Single; 3], exposure: Single, gain: Single, powers: [Powers; 3]) -> (r: [Single;
    3])
    ensures
        r == with_exposure(c, exposure, gain, powers),
{
    if exposure.equals(Single::zero()) {
        c
    } else {
        [
            expose(c[0], gain, powers[0]),
            expose(c[1], gain, powers[1]),
            expose(c[2], gain, powers[2]),
        ]
    }
}

pub open spec fn spec_luma(c: [Single; 3]) -> Single {
    c[0].times(Single { bits: LUMA_RED }).plus(c[1].times(Single { bits: LUMA_GREEN })).plus(
        c[2].times(Single { bits: LUMA_BLUE }),
    )
}

/// Rec.709 luma of a color.
#[verifier::when_used_as_spec(spec_luma)]
pub fn luma(c: [Single; 3]) -> (r: Single)
    ensures
        r == spec_luma(c),
{
    c[0].times(Single { bits: LUMA_RED }).plus(c[1].times(Single { bits: LUMA_GREEN })).plus(
        c[2].times(Single { bits: LUMA_BLUE }),
    )
}

pub open spec fn spec_smoothstep(edge0: Single, edge1: Single, x: Single) -> Single {
    let t = x.minus(edge0).over(edge1.minus(edge0)).clamped(Single::zero(), Single::one());
    t.times(t).times(Single { bits: THREE }.minus(Single { bits: TWO }.times(t)))
}

/// Same curve as GLSL/WGSL/OpenCL `smoothstep`, so the shaders agree.
#[verifier::when_used_as_spec(spec_smoothstep)]
pub fn smoothstep(edge0: Single, edge1: Single, x: Single) -> (r: Single)
    ensures
        r == spec_smoothstep(edge0, edge1, x),
{
    let t = x.minus(edge0).over(edge1.minus(edge0)).clamped(Single::zero(), Single::one());
    t.times(t).times(Single { bits: THREE }.minus(Single { bits: TWO }.times(t)))
}

/// A color with every channel multiplied by `gain`.
pub open spec fn lifted(c: [Single; 3], gain: Single) -> [Single; 3] {
    [c[0].times(gain), c[1].times(gain), c[2].times(gain)]
}

fn lift(c: [Single; 3], gain: Single) -> (r: [Single; 3])
    ensures
        r == lifted(c, gain),
{
    [c[0].times(gain), c[1].times(gain), c[2].times(gain)]
}

/// Luminance: a plain gain in display space.
pub open spec fn with_luminance(c: [Single; 3], luminance: Single) -> [Single; 3] {
    if active(luminance) {
        lifted(c, Single::one().plus(luminance.times(Single { bits: LUMINANCE_GAIN })))
    } else {
        c
    }
}

fn apply_luminance(c: [Single; 3], luminance: Single) -> (r: [Single; 3])
    ensures
        r == with_luminance(c, luminance),
{
    if luminance.equals(Single::zero()) {
        c
    } else {
        lift(c, Single::one().plus(luminance.times(Single { bits: LUMINANCE_GAIN })))
    }
}

/// A channel turned around the pivot.
pub open spec fn pivoted(v: Single, gain: Single) -> Single {
    v.minus(Single { bits: CONTRAST_PIVOT }).times(gain).plus(Single { bits: CONTRAST_PIVOT })
}

fn pivot(v: Single, gain: Single) -> (r: Single)
    ensures
        r == pivoted(v, gain),
{
    v.minus(Single { bits: CONTRAST_PIVOT }).times(gain).plus(Single { bits: CONTRAST_PIVOT })
}

/// Contrast, pivoting on middle grey so the image does not also brighten.
pub open spec fn with_contrast(c: [Single; 3], contrast: Single) -> [Single; 3] {
    if active(contrast) {
        let gain = Single::one().plus(contrast);
        [pivoted(c[0], gain), pivoted(c[1], gain), pivoted(c[2], gain)]
    } else {
        c
    }
}

fn apply_contrast(c: [Single; 3], contrast: Single) -> (r: [Single; 3])
    ensures
        r == with_contrast(c, contrast),
{
    if contrast.equals(Single::zero()) {
        c
    } else {
        let gain = Single::one().plus(contrast);
        [pivot(c[0], gain), pivot(c[1], gain), pivot(c[2], gain)]
    }
}

/// `v` moved toward `target` by the fraction `w` of the way.
pub open spec fn toward(v: Single, target: Single, w: Single) -> Single {
    v.plus(target.minus(v).times(w))
}

fn move_toward(v: Single, target: Single, w: Single) -> (r: Single)
    ensures
        r == toward(v, target, w),
{
    v.plus(target.minus(v).times(w))
}

/// A tonal band: its mask runs between two edges of luma, and the dark bands
/// invert it so they act near black. A positive amount mixes toward white, a
/// negative one toward black, which keeps the ends from clipping abruptly.
pub open spec fn with_band(
    c: [Single; 3],
    amount: Single,
    from: Single,
    to: Single,
    dark: bool,
) -> [Single; 3] {
    if active(amount) {
        let ramp = smoothstep(from, to, luma(c));
        let mask = if dark {
            Single::one().minus(ramp)
        } else {
            ramp
        };
        let w = amount.magnitude().times(mask).times(Single { bits: TONAL_STRENGTH });
        let target = if Single::zero().less(amount) {
            Single::one()
        } else {
            Single::zero()
        };
        [toward(c[0], target, w), toward(c[1], target, w), toward(c[2], target, w)]
    } else {
        c
    }
}

fn apply_band(c: [Single; 3], amount: Single, from: Single, to: Single, dark: bool) -> (r: [Single; 3])
    ensures
        r == with_band(c, amount, from, to, dark),
{
    if amount.equals(Single::zero()) {
        return c;
    }
    let ramp = smoothstep(from, to, luma(c));
    let mask = if dark {
        Single::one().minus(ramp)
    } else {
        ramp
    };
    let w = amount.magnitude().times(mask).times(Single { bits: TONAL_STRENGTH });
    let target = if Single::zero().less(amount) {
        Single::one()
    } else {
        Single::zero()
    };
    [move_toward(c[0], target, w), move_toward(c[1], target, w), move_toward(c[2], target, w)]
}

/// The four tonal bands, darkest first.
pub open spec fn with_tones(
    c: [Single; 3],
    blacks: Single,
    shadows: Single,
    highlights: Single,
    whites: Single,
) -> [Single; 3] {
    let c = with_band(c, blacks, Single { bits: BLACKS_FROM }, Single { bits: BLACKS_TO }, true);
    let c = with_band(c, shadows, Single { bits: SHADOWS_FROM }, Single { bits: SHADOWS_TO }, true);
    let c = with_band(
        c,
        highlights,
        Single { bits: HIGHLIGHTS_FROM },
        Single { bits: HIGHLIGHTS_TO },
        false,
    );
    with_band(c, whites, Single { bits: WHITES_FROM }, Single { bits: WHITES_TO }, false)
}

fn apply_tones(
    c: [Single; 3],
    blacks: Single,
    shadows: Single,
    highlights: Single,
    whites: Single,
) -> (r: [Single; 3])
    ensures
        r == with_tones(c, blacks, shadows, highlights, whites),
{
    let c = apply_band(c, blacks, Single { bits: BLACKS_FROM }, Single { bits: BLACKS_TO }, true);
    let c = apply_band(c, shadows, Single { bits: SHADOWS_FROM }, Single { bits: SHADOWS_TO }, true);
    let c = apply_band(
        c,
        highlights,
        Single { bits: HIGHLIGHTS_FROM },
        Single { bits: HIGHLIGHTS_TO },
        false,
    );
    apply_band(c, whites, Single { bits: WHITES_FROM }, Single { bits: WHITES_TO }, false)
}

/// White balance: warm pushes red and pulls blue; tint trades green against
/// magenta, splitting the counter-move across red and blue.
pub open spec fn with_balance(c: [Single; 3], temperature: Single, tint: Single) -> [Single; 3] {
    if active(temperature) || active(tint) {
        let t = temperature.times(Single { bits: WB_STRENGTH });
        let g = tint.times(Single { bits: WB_STRENGTH });
        let h = g.times(Single { bits: HALF });
        [c[0].plus(t).plus(h), c[1].minus(g), c[2].minus(t).plus(h)]
    } else {
        c
    }
}

fn apply_balance(c: [Single; 3], temperature: Single, tint: Single) -> (r: [Single; 3])
    ensures
        r == with_balance(c, temperature, tint),
{
    let zero = Single::zero();
    if temperature.equals(zero) && tint.equals(zero) {
        return c;
    }
    let t = temperature.times(Single { bits: WB_STRENGTH });
    let g = tint.times(Single { bits: WB_STRENGTH });
    let h = g.times(Single { bits: HALF });
    [c[0].plus(t).plus(h), c[1].minus(g), c[2].minus(t).plus(h)]
}

/// A channel spread away from the luma `l`.
pub open spec fn spread(v: Single, l: Single, gain: Single) -> Single {
    l.plus(v.minus(l).times(gain))
}

fn spread_out(v: Single, l: Single, gain: Single) -> (r: Single)
    ensures
        r == spread(v, l, gain),
{
    l.plus(v.minus(l).times(gain))
}

/// Saturation, after the tonal work so it acts on the final tones.
pub open spec fn with_saturation(c: [Single; 3], saturation: Single) -> [Single; 3] {
    if active(saturation) {
        let l = luma(c);
        let gain = Single::one().plus(saturation);
        [spread(c[0], l, gain), spread(c[1], l, gain), spread(c[2], l, gain)]
    } else {
        c
    }
}

fn apply_saturation(c: [Single; 3], saturation: Single) -> (r: [Single; 3])
    ensures
        r == with_saturation(c, saturation),
{
    if saturation.equals(Single::zero()) {
        return c;
    }
    let l = luma(c);
    let gain = Single::one().plus(saturation);
    [spread_out(c[0], l, gain), spread_out(c[1], l, gain), spread_out(c[2], l, gain)]
}

/// Distance between the largest and the smallest channel, held between 0 and 1.
pub open spec fn vividness(c: [Single; 3]) -> Single {
    let most = c[0].greater_of(c[1]).greater_of(c[2]);
    let least = c[0].lesser_of(c[1]).lesser_of(c[2]);
    most.minus(least).clamped(Single::zero(), Single::one())
}

/// How much vibrance spreads a color: less, the more vivid it is already.
pub open spec fn vibrance_gain(c: [Single; 3], vibrance: Single) -> Single {
    Single::one().plus(vibrance.times(Single::one().minus(vividness(c))))
}

/// Vibrance: saturation that backs off where the pixel is already saturated, so
/// skies and skin do not blow out first.
pub open spec fn with_vibrance(c: [Single; 3], vibrance: Single) -> [Single; 3] {
    if active(vibrance) {
        let l = luma(c);
        let gain = vibrance_gain(c, vibrance);
        [spread(c[0], l, gain), spread(c[1], l, gain), spread(c[2], l, gain)]
    } else {
        c
    }
}

fn apply_vibrance(c: [Single; 3], vibrance: Single) -> (r: [Single; 3])
    ensures
        r == with_vibrance(c, vibrance),
{
    if vibrance.equals(Single::zero()) {
        return c;
    }
    let one = Single::one();
    let l = luma(c);
    let most = c[0].greater_of(c[1]).greater_of(c[2]);
    let least = c[0].lesser_of(c[1]).lesser_of(c[2]);
    let vivid = most.minus(least).clamped(Single::zero(), one);
    let gain = one.plus(vibrance.times(one.minus(vivid)));
    [spread_out(c[0], l, gain), spread_out(c[1], l, gain), spread_out(c[2], l, gain)]
}

/// Legs of the two right triangles of the vignette: offset of a pixel from the
/// frame centre, and half the frame's width. Heights are the unit, so half the
/// frame's height is 0.5 and a 16:9 frame gets a circle.
#[derive(Clone, Copy, Debug, PartialEq)]
pub struct Legs {
    pub dx: Single,
    pub dy: Single,
    pub half_width: Single,
}

pub open spec fn legs(out_pos: (Single, Single), output_size: (Single, Single)) -> Legs {
    let w = output_size.0.greater_of(Single::one());
    let h = output_size.1.greater_of(Single::one());
    let aspect = w.over(h);
    let half = Single { bits: HALF };
    Legs {
        dx: out_pos.0.over(w).minus(half).times(aspect),
        dy: out_pos.1.over(h).minus(half),
        half_width: half.times(aspect),
    }
}

/// What the vignette needs the hypotenuses of; see [`Legs`].
pub fn vignette_legs(out_pos: (Single, Single), output_size: (Single, Single)) -> (r: Legs)
    ensures
        r == legs(out_pos, output_size),
{
    let w = output_size.0.greater_of(Single::one());
    let h = output_size.1.greater_of(Single::one());
    let aspect = w.over(h);
    let half = Single { bits: HALF };
    Legs {
        dx: out_pos.0.over(w).minus(half).times(aspect),
        dy: out_pos.1.over(h).minus(half),
        half_width: half.times(aspect),
    }
}

/// Vignette, bipolar: negative darkens the corners, positive lifts them.
///
/// `reach` is how far the pixel is from the centre and `corner` how far the
/// corner is. The mask is 1 at the centre and falls to 0 at the corner, so the
/// centre is untouched either way.
pub open spec fn with_vignette(
    c: [Single; 3],
    vignette: Single,
    reach: Single,
    corner: Single,
) -> [Single; 3] {
    if active(vignette) {
        let mask = smoothstep(
            Single { bits: VIGNETTE_OUTER },
            Single { bits: VIGNETTE_INNER },
            reach.over(corner),
        );
        lifted(c, Single::one().plus(vignette.times(Single::one().minus(mask))))
    } else {
        c
    }
}

fn apply_vignette(c: [Single; 3], vignette: Single, reach: Single, corner: Single) -> (r: [Single; 3])
    ensures
        r == with_vignette(c, vignette, reach, corner),
{
    if vignette.equals(Single::zero()) {
        return c;
    }
    let mask = smoothstep(
        Single { bits: VIGNETTE_OUTER },
        Single { bits: VIGNETTE_INNER },
        reach.over(corner),
    );
    lift(c, Single::one().plus(vignette.times(Single::one().minus(mask))))
}

/// Every per-pixel control of the packed blocks is at neutral.
pub open spec fn all_neutral(adjust: [[Single; 4]; 4]) -> bool {
    forall|i: int, j: int| 0 <= i < 3 && 0 <= j < 4 ==> !active(#[trigger] adjust[i][j])
}

/// Whether every per-pixel control of the packed blocks is at neutral.
pub fn is_neutral(adjust: &[[Single; 4]; 4]) -> (b: bool)
    ensures
        b == all_neutral(*adjust),
{
    let zero = Single::zero();
    let mut i: usize = 0;
    while i < 3
        invariant
            i <= 3,
            zero == Single::zero(),
            forall|k: int, j: int| 0 <= k < i && 0 <= j < 4 ==> !active(#[trigger] adjust[k][j]),
        decreases 3 - i,
    {
        let row = adjust[i];
        let mut j: usize = 0;
        while j < 4
            invariant
                i < 3,
                j <= 4,
                zero == Single::zero(),
                row == adjust[i as int],
                forall|l: int| 0 <= l < j ==> !active(#[trigger] row[l]),
            decreases 4 - j,
        {
            if !row[j].equals(zero) {
                assert(active(adjust[i as int][j as int]));
                return false;
            }
            j = j + 1;
        }
        i = i + 1;
    }
    true
}

pub open spec fn spec_base(px: [Single; 4], max_pixel_value: Single) -> [Single; 3] {
    [px[0].over(max_pixel_value), px[1].over(max_pixel_value), px[2].over(max_pixel_value)]
}

/// The color of a pixel on the scale from 0 to 1.
#[verifier::when_used_as_spec(spec_base)]
pub fn base(px: [Single; 4], max_pixel_value: Single) -> (r: [Single; 3])
    ensures
        r == spec_base(px, max_pixel_value),
{
    [px[0].over(max_pixel_value), px[1].over(max_pixel_value), px[2].over(max_pixel_value)]
}

/// Exponent of two that gives the gain of an exposure, in linear light.
pub fn exposure_exponent(exposure: Single) -> (r: Single)
    ensures
        r == exposure.times(Single { bits: EXPOSURE_STOPS }),
{
    exposure.times(Single { bits: EXPOSURE_STOPS })
}

/// What powers and roots give for a pixel.
#[derive(Clone, Copy, Debug, PartialEq)]
pub struct Taken {
    /// Two to the power of [`exposure_exponent`]. It and the powers count only
    /// where there is an exposure.
    pub gain: Single,
    pub powers: [Powers; 3],
    /// Hypotenuses of [`vignette_legs`]: how far the pixel is from the centre, and
    /// how far the corner is. They count only where there is a vignette.
    pub reach: Single,
    pub corner: Single,
}

/// The color after every stage, before the clamp.
pub open spec fn graded(
    px: [Single; 4],
    taken: Taken,
    adjust: [[Single; 4]; 4],
    max_pixel_value: Single,
) -> [Single; 3] {
    let c = base(px, max_pixel_value);
    let c = with_exposure(c, adjust[0][0], taken.gain, taken.powers);
    let c = with_luminance(c, adjust[0][1]);
    let c = with_contrast(c, adjust[0][2]);
    let c = with_tones(c, adjust[1][2], adjust[1][0], adjust[0][3], adjust[1][1]);
    let c = with_balance(c, adjust[1][3], adjust[2][0]);
    let c = with_saturation(c, adjust[2][1]);
    let c = with_vibrance(c, adjust[2][2]);
    with_vignette(c, adjust[2][3], taken.reach, taken.corner)
}

/// A channel held between 0 and 1, on the scale of the pipeline.
pub open spec fn finished(v: Single, max_pixel_value: Single) -> Single {
    v.clamped(Single::zero(), Single::one()).times(max_pixel_value)
}

/// Applies the per-pixel adjustments in place.
///
/// `adjust` holds the four normalized blocks from [`ColorAdjustments::to_gpu`],
/// and `px` is in the pipeline's scale (0..`max_pixel_value`), not 0..1. The
/// powers and roots of this pixel are given as `taken`.
///
/// Alpha is never touched, and with every control at neutral nothing is.
pub fn apply(
    px: &mut [Single; 4],
    taken: &Taken,
    adjust: &[[Single; 4]; 4],
    max_pixel_value: Single,
)
    ensures
        all_neutral(*adjust) ==> *final(px) == *old(px),
        !all_neutral(*adjust) ==> {
            let c = graded(*old(px), *taken, *adjust, max_pixel_value);
            *final(px) == [
                finished(c[0], max_pixel_value),
                finished(c[1], max_pixel_value),
                finished(c[2], max_pixel_value),
                old(px)[3],
            ]
        },
{
    // The common case is every slider at neutral, so this costs one branch
    // rather than the whole chain.
    if is_neutral(adjust) {
        return;
    }
    let c = base(*px, max_pixel_value);
    let c = apply_exposure(c, adjust[0][0], taken.gain, taken.powers);
    let c = apply_luminance(c, adjust[0][1]);
    let c = apply_contrast(c, adjust[0][2]);
    let c = apply_tones(c, adjust[1][2], adjust[1][0], adjust[0][3], adjust[1][1]);
    let c = apply_balance(c, adjust[1][3], adjust[2][0]);
    let c = apply_saturation(c, adjust[2][1]);
    let c = apply_vibrance(c, adjust[2][2]);
    let c = apply_vignette(c, adjust[2][3], taken.reach, taken.corner);
    // Safety clamp before the spatial stage, so out-of-range values do not
    // propagate into the sharpening neighbourhood.
    let zero = Single::zero();
    let one = Single::one();
    let alpha = px[3];
    *px = [
        c[0].clamped(zero, one).times(max_pixel_value),
        c[1].clamped(zero, one).times(max_pixel_value),
        c[2].clamped(zero, one).times(max_pixel_value),
        alpha,
    ];
}

} // verus!
