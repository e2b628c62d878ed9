//! What holds of the color adjustments as a whole.

use crate::color::adjustments;
use crate::color::adjustments::{ColorAdjustments, Control, Taken};
use crate::ieee::grid;
use crate::ieee::grid::Format;
use crate::ieee::laws;
use crate::ieee::number;
use crate::ieee::single::Single;
use vstd::arithmetic::power2::*;
use vstd::prelude::*;

verus! {

/// With every control at neutral, every packed value is neutral too, so that
/// applying the packed values leaves any pixel as it is.
pub proof fn law_identity_changes_nothing(a: ColorAdjustments)
    requires
        a.neutral(),
    ensures
        adjustments::all_neutral(a.packed()),
{
    let full = Single { bits: adjustments::FULL };
    assert forall|c: Control| !adjustments::active(ColorAdjustments::scaled(#[trigger] a.value(c))) by {
        assert(!adjustments::active(a.value(c)));
        laws::law_zero_over(a.value(c), full);
    }
    let p = a.packed();
    assert(p[0][0] == ColorAdjustments::scaled(a.value(Control::Exposure)));
    assert(p[0][1] == ColorAdjustments::scaled(a.value(Control::Luminance)));
    assert(p[0][2] == ColorAdjustments::scaled(a.value(Control::Contrast)));
    assert(p[0][3] == ColorAdjustments::scaled(a.value(Control::Highlights)));
    assert(p[1][0] == ColorAdjustments::scaled(a.value(Control::Shadows)));
    assert(p[1][1] == ColorAdjustments::scaled(a.value(Control::Whites)));
    assert(p[1][2] == ColorAdjustments::scaled(a.value(Control::Blacks)));
    assert(p[1][3] == ColorAdjustments::scaled(a.value(Control::Temperature)));
    assert(p[2][0] == ColorAdjustments::scaled(a.value(Control::Tint)));
    assert(p[2][1] == ColorAdjustments::scaled(a.value(Control::Saturation)));
    assert(p[2][2] == ColorAdjustments::scaled(a.value(Control::Vibrance)));
    assert(p[2][3] == ColorAdjustments::scaled(a.value(Control::Vignette)));
}

/// What was written under a known name is read back, held within its range, and
/// every other name reads as before.
pub proof fn law_reads_follow_writes(
    before: ColorAdjustments,
    after: ColorAdjustments,
    name: Seq<char>,
    v: Single,
    other: Seq<char>,
)
    requires
        after.results_from(before, name, v),
    ensures
        adjustments::control_named(name) matches Some(c) ==> after.reading(name)
            == adjustments::in_range(c, v),
        adjustments::control_named(name) is None ==> after.reading(name) == Single::zero(),
        adjustments::control_named(other) != adjustments::control_named(name)
            ==> after.reading(other) == before.reading(other),
{
}

/// Writing the same value twice is writing it once.
pub proof fn law_writing_again_changes_nothing(
    before: ColorAdjustments,
    once: ColorAdjustments,
    twice: ColorAdjustments,
    name: Seq<char>,
    v: Single,
    other: Seq<char>,
)
    requires
        once.results_from(before, name, v),
        twice.results_from(once, name, v),
    ensures
        twice.reading(other) == once.reading(other),
{
}

/// A value that was set lies within the range of its control.
pub proof fn law_settings_stay_in_range(c: Control, v: Single)
    requires
        !v.nan(),
    ensures
        adjustments::in_range(c, v).at_most(Single { bits: adjustments::FULL }),
        c == Control::Sharpness ==> Single::zero().at_most(adjustments::in_range(c, v)),
        c != Control::Sharpness ==> (Single { bits: adjustments::FULL_BELOW }).at_most(
            adjustments::in_range(c, v),
        ),
{
}

/// A slider value within its range is packed as a value from -1 to 1.
pub proof fn law_packed_values_in_unit_range(v: Single)
    requires
        (Single { bits: adjustments::FULL_BELOW }).at_most(v),
        v.at_most(Single { bits: adjustments::FULL }),
    ensures
        Single::one().opposite().at_most(ColorAdjustments::scaled(v)),
        ColorAdjustments::scaled(v).at_most(Single::one()),
{
    let f = Format::Single;
    let full = Single { bits: adjustments::FULL };
    let a = grid::units(f, v.number().index as nat);
    let u = grid::units(f, full.number().index as nat);
    let p = pow2(149);
    assert(v.number().index <= full.number().index);
    grid::lemma_units_increase(f, 0, full.number().index as nat);
    if v.number().index < full.number().index {
        grid::lemma_units_increase(f, v.number().index as nat, full.number().index as nat);
    }
    laws::law_over_itself(full);
    laws::law_nearest_exists(f, a * p, u);
    laws::law_nearest_exists(f, u * p, u);
    assert((a * p) * u <= (u * p) * u) by (nonlinear_arith)
        requires
            a <= u,
    ;
    laws::law_rounding_keeps_order(f, a * p, u, u * p, u);
    let k = grid::round_magnitude(f, a * p, u);
    assert(full.over(full).number().index == grid::round_magnitude(f, u * p, u));
    assert(ColorAdjustments::scaled(v).number().index == k);
}

/// A channel at the pivot stays put under any contrast: contrast is a rotation,
/// not a change of brightness.
pub proof fn law_contrast_pivots(contrast: Single)
    requires
        laws::is_finite(Single::one().plus(contrast)),
    ensures
        ({
            let p = Single { bits: adjustments::CONTRAST_PIVOT };
            adjustments::with_contrast([p, p, p], contrast) == [p, p, p]
        }),
{
    let p = Single { bits: adjustments::CONTRAST_PIVOT };
    let gain = Single::one().plus(contrast);
    laws::law_minus_itself(p);
    laws::law_times_zero(gain, Single::zero());
    laws::law_plus_zero(p, Single::zero().times(gain));
}

/// A channel that is not spread at all is the luma.
proof fn lemma_spread_none(v: Single, l: Single)
    requires
        !l.nan(),
        laws::is_finite(v.minus(l)),
    ensures
        adjustments::spread(v, l, Single::zero()).equals(l),
{
    laws::law_times_zero(v.minus(l), Single::zero());
    laws::law_plus_zero(l, v.minus(l).times(Single::zero()));
}

/// One and its opposite make nothing.
proof fn lemma_one_cancels()
    ensures
        Single::one().plus(Single::one().opposite()) == Single::zero(),
        adjustments::active(Single::one().opposite()),
{
    let one = Single::one();
    laws::law_minus_itself(one);
    assert(one.opposite().number() == number::negated(one.number()));
    assert(one.plus(one.opposite()) == one.minus(one));
}

/// Saturation at -1 takes every channel to the luma.
pub proof fn law_full_desaturation_is_luma(c: [Single; 3], ch: int)
    requires
        0 <= ch < 3,
        !adjustments::luma(c).nan(),
        laws::is_finite(c[ch].minus(adjustments::luma(c))),
    ensures
        adjustments::with_saturation(c, Single::one().opposite())[ch].equals(adjustments::luma(c)),
{
    let l = adjustments::luma(c);
    lemma_one_cancels();
    lemma_spread_none(c[ch], l);
    assert(adjustments::with_saturation(c, Single::one().opposite())[ch] == adjustments::spread(
        c[ch],
        l,
        Single::zero(),
    ));
}

/// What is left of a channel in the end lies between 0 and the largest pixel
/// value.
pub proof fn law_result_in_range(v: Single, max_pixel_value: Single)
    requires
        !v.nan(),
        Single::zero().less(max_pixel_value),
        laws::is_finite(max_pixel_value),
    ensures
        Single::zero().at_most(adjustments::finished(v, max_pixel_value)),
        adjustments::finished(v, max_pixel_value).at_most(max_pixel_value),
{
    let one = Single::one();
    let c = v.clamped(Single::zero(), one);
    laws::law_times_one(max_pixel_value);
    if c.number().index == 0 {
        laws::law_times_zero(max_pixel_value, c);
    } else {
        laws::law_times_keeps_order(c, one, max_pixel_value);
    }
}

/// A grey pixel stays grey unless the white balance is off neutral: no other
/// stage tells the channels apart. The exposure stage asks for the same powers
/// on every channel.
pub proof fn law_grey_stays_grey(
    px: [Single; 4],
    taken: Taken,
    adjust: [[Single; 4]; 4],
    max_pixel_value: Single,
)
    requires
        px[0] == px[1] && px[1] == px[2],
        taken.powers[0] == taken.powers[1] && taken.powers[1] == taken.powers[2],
        !adjustments::active(adjust[1][3]),
        !adjustments::active(adjust[2][0]),
    ensures
        ({
            let c = adjustments::graded(px, taken, adjust, max_pixel_value);
            c[0] == c[1] && c[1] == c[2]
        }),
{
}

pub(crate) proof fn lemma_constants()
    ensures
        grid::units(Format::Single, 0x3f80_0000) == pow2(149),
        grid::units(Format::Single, 0x4000_0000) == 2 * pow2(149),
        grid::units(Format::Single, 0x4040_0000) == 3 * pow2(149),
{
    lemma2_to64();
    lemma_pow2_adds(23, 126);
    lemma_pow2_adds(23, 127);
    lemma_pow2_unfold(127);
    let p = pow2(126);
    assert(0x3f80_0000nat / 0x80_0000nat == 127 && 0x3f80_0000nat % 0x80_0000nat == 0);
    assert(0x4000_0000nat / 0x80_0000nat == 128 && 0x4000_0000nat % 0x80_0000nat == 0);
    assert(0x4040_0000nat / 0x80_0000nat == 128 && 0x4040_0000nat % 0x80_0000nat == 0x40_0000);
    assert((0x80_0000 + 0x40_0000) * (2 * p) == 3 * (0x80_0000 * p)) by (nonlinear_arith);
    assert(0x80_0000 * (2 * p) == 2 * (0x80_0000 * p)) by (nonlinear_arith);
}

/// The smoothstep is 1 past its upper edge.
pub(crate) proof fn lemma_smoothstep_full(edge0: Single, edge1: Single, x: Single)
    requires
        Single::one().at_most(x.minus(edge0).over(edge1.minus(edge0))),
    ensures
        adjustments::smoothstep(edge0, edge1, x) == Single::one(),
{
    let f = Format::Single;
    let one = Single::one();
    let two = Single { bits: adjustments::TWO };
    let three = Single { bits: adjustments::THREE };
    let t = x.minus(edge0).over(edge1.minus(edge0)).clamped(Single::zero(), one);
    assert(t == one);
    laws::law_times_one(one);
    laws::law_times_one(two);
    lemma_constants();
    laws::law_rounding_keeps_values(f, 0x3f80_0000, 1);
    assert(pow2(149) * 1 == pow2(149));
    lemma_pow2_pos(149);
    assert(three.minus(two).number() == one.number());
    assert(three.minus(two) == one);
}

/// The vignette leaves the centre of the frame as it is.
pub proof fn law_vignette_spares_the_centre(c: [Single; 3], vignette: Single, corner: Single)
    requires
        forall|i: int| 0 <= i < 3 ==> !(#[trigger] c[i]).nan(),
        laws::is_finite(vignette),
        Single::zero().less(corner),
    ensures
        adjustments::with_vignette(c, vignette, Single::zero(), corner) == c,
{
    let f = Format::Single;
    let one = Single::one();
    let zero = Single::zero();
    let inner = Single { bits: adjustments::VIGNETTE_INNER };
    let x = zero.over(corner);
    let span = inner.minus(one);
    let over = x.minus(one);
    laws::law_zero_over(zero, corner);
    lemma_constants();
    lemma_pow2_pos(149);
    let u = grid::units(f, inner.number().index as nat);
    grid::lemma_units_increase(f, 0, inner.number().index as nat);
    grid::lemma_units_increase(f, inner.number().index as nat, 0x3f80_0000);
    // The centre is one below the outer edge, and the inner edge is less far.
    let p = pow2(149);
    laws::law_rounding_keeps_values(f, 0x3f80_0000, 1);
    assert(p * 1 == p);
    assert(grid::units(f, 0) == 0);
    assert(over.number() == (number::Number { negative: true, index: 0x3f80_0000 }));
    let d = (p - u) as nat;
    laws::law_nearest_exists(f, d, 1);
    laws::law_rounding_keeps_order(f, d, 1, p, 1);
    let k = grid::round_magnitude(f, d, 1);
    assert(span.number() == (number::Number { negative: true, index: k as u64 }));
    laws::law_rounding_keeps_values(f, 1, 1);
    assert(grid::units(f, 1) == 1);
    laws::law_rounding_keeps_order(f, 1, 1, d, 1);
    assert(1 <= k <= 0x3f80_0000);
    // So the ratio is at least one.
    let w = grid::units(f, k);
    grid::lemma_units_increase(f, k, 0x3f80_0000);
    grid::lemma_units_increase(f, 0, k);
    laws::law_rounding_keeps_values(f, 0x3f80_0000, w);
    assert((p * w) * w <= (p * p) * w) by (nonlinear_arith)
        requires
            w <= p,
    ;
    laws::law_rounding_keeps_order(f, p * w, w, p * p, w);
    laws::law_nearest_exists(f, p * p, w);
    let ratio = over.over(span);
    assert(ratio.number() == (number::Number {
        negative: false,
        index: grid::round_magnitude(f, p * p, w) as u64,
    }));
    lemma_smoothstep_full(one, inner, x);
    laws::law_minus_itself(one);
    laws::law_times_zero(vignette, zero);
    laws::law_plus_zero(one, vignette.times(zero));
    laws::law_times_one(c[0]);
    laws::law_times_one(c[1]);
    laws::law_times_one(c[2]);
    assert(adjustments::with_vignette(c, vignette, zero, corner) =~= c);
}

/// The smoothstep is 0 at its lower edge.
proof fn lemma_smoothstep_none(edge0: Single, edge1: Single)
    requires
        laws::is_finite(edge0),
        !edge1.minus(edge0).nan(),
        edge1.minus(edge0).number().index != 0,
    ensures
        !adjustments::smoothstep(edge0, edge1, edge0).nan(),
        adjustments::smoothstep(edge0, edge1, edge0).number().index == 0,
{
    let zero = Single::zero();
    let two = Single { bits: adjustments::TWO };
    let three = Single { bits: adjustments::THREE };
    laws::law_minus_itself(edge0);
    laws::law_zero_over(zero, edge1.minus(edge0));
    let t = zero.over(edge1.minus(edge0)).clamped(zero, Single::one());
    assert(t.number().index == 0 && !t.nan());
    laws::law_times_zero(two, t);
    laws::law_times_zero(t, t);
    let rest = three.minus(two.times(t));
    laws::law_minus_zero(three, two.times(t));
    laws::law_times_zero(rest, t.times(t));
}

/// In the corner of the frame the vignette multiplies every channel by one plus
/// its amount. So a channel of some size falls there where the amount is below
/// zero and rises where it is above, unless the amount is too small to tell one
/// plus it from one.
pub proof fn law_vignette_turns_the_corners(
    c: [Single; 3],
    vignette: Single,
    corner: Single,
    ch: int,
)
    requires
        0 <= ch < 3,
        (Single { bits: laws::SMALLEST_NORMAL }).less(c[ch]),
        laws::is_finite(c[ch]),
        Single::one().opposite().at_most(vignette),
        vignette.at_most(Single::one()),
        adjustments::active(vignette),
        Single::zero().less(corner),
        laws::is_finite(corner),
    ensures
        ({
            let gain = Single::one().plus(vignette);
            let after = adjustments::with_vignette(c, vignette, corner, corner)[ch];
            &&& after == c[ch].times(gain)
            &&& gain.less(Single::one()) ==> after.less(c[ch])
            &&& Single::one().less(gain) ==> c[ch].less(after)
            &&& vignette.less(Single::zero()) ==> gain.at_most(Single::one())
            &&& Single::zero().less(vignette) ==> Single::one().at_most(gain)
        }),
{
    let f = Format::Single;
    let one = Single::one();
    let zero = Single::zero();
    let inner = Single { bits: adjustments::VIGNETTE_INNER };
    let gain = one.plus(vignette);
    laws::law_over_itself(corner);
    // The span of the mask is not empty.
    let span = inner.minus(one);
    let u = grid::units(f, inner.number().index as nat);
    lemma_constants();
    grid::lemma_units_increase(f, inner.number().index as nat, 0x3f80_0000);
    let d = (pow2(149) - u) as nat;
    laws::law_nearest_exists(f, d, 1);
    laws::law_rounding_keeps_values(f, 1, 1);
    assert(grid::units(f, 1) == 1);
    laws::law_rounding_keeps_order(f, 1, 1, d, 1);
    let k = grid::round_magnitude(f, d, 1);
    assert(span.number() == (number::Number { negative: true, index: k as u64 }));
    lemma_smoothstep_none(one, inner);
    let mask = adjustments::smoothstep(one, inner, one);
    laws::law_minus_zero(one, mask);
    laws::law_times_one(vignette);
    assert(adjustments::with_vignette(c, vignette, corner, corner)[ch] == c[ch].times(gain));
    // The gain is on the side of the amount, and from zero to two.
    lemma_one_cancels();
    laws::law_plus_zero(one, zero);
    laws::law_plus_keeps_order(one.opposite(), vignette, one);
    laws::law_plus_keeps_order(vignette, one, one);
    laws::law_rounding_keeps_values(f, 0x4000_0000, 1);
    assert((2 * pow2(149)) * 1 == 2 * pow2(149));
    assert(number::signed_units(f, one.number()) == pow2(149));
    assert(one.plus(one).number() == number::rounded_units(f, (2 * pow2(149)) as int));
    assert(one.plus(one).number().index == 0x4000_0000);
    if vignette.less(zero) {
        laws::law_plus_keeps_order(vignette, zero, one);
    }
    if zero.less(vignette) {
        laws::law_plus_keeps_order(zero, vignette, one);
    }
    if gain.less(one) {
        laws::law_product_shrinks(c[ch], gain);
    }
    if one.less(gain) {
        laws::law_product_grows(c[ch], gain);
    }
}

/// The vignette is round: where a pixel stands tells only through how far it is
/// from the centre, so that pixels equally far come out alike.
pub proof fn law_vignette_is_round(
    px: [Single; 4],
    here: Taken,
    there: Taken,
    adjust: [[Single; 4]; 4],
    max_pixel_value: Single,
)
    requires
        here.reach == there.reach,
        here.corner == there.corner,
        adjustments::active(adjust[0][0]) ==> here.gain == there.gain && here.powers == there.powers,
    ensures
        adjustments::graded(px, here, adjust, max_pixel_value) == adjustments::graded(
            px,
            there,
            adjust,
            max_pixel_value,
        ),
{
}

/// Vibrance backs off where a color is vivid already: of two colors, the more
/// vivid one is spread by a gain that is no farther from one.
pub proof fn law_vibrance_spares_vivid_colors(
    muted: [Single; 3],
    vivid: [Single; 3],
    vibrance: Single,
    ch: int,
)
    requires
        adjustments::vividness(muted).at_most(adjustments::vividness(vivid)),
        laws::is_finite(vibrance),
        adjustments::active(vibrance),
        0 <= ch < 3,
    ensures
        ({
            let one = Single::one();
            let less = adjustments::vibrance_gain(vivid, vibrance);
            let more = adjustments::vibrance_gain(muted, vibrance);
            &&& Single::zero().less(vibrance) ==> one.at_most(less) && less.at_most(more)
            &&& vibrance.less(Single::zero()) ==> more.at_most(less) && less.at_most(one)
            &&& adjustments::with_vibrance(vivid, vibrance)[ch] == adjustments::spread(
                vivid[ch],
                adjustments::luma(vivid),
                less,
            )
        }),
{
    let one = Single::one();
    let zero = Single::zero();
    let a = adjustments::vividness(muted);
    let b = adjustments::vividness(vivid);
    assert(zero.at_most(a) && b.at_most(one));
    laws::law_minus_turns_order(a, b, one);
    laws::law_minus_turns_order(b, one, one);
    laws::law_minus_turns_order(zero, a, one);
    laws::law_minus_itself(one);
    laws::law_minus_zero(one, zero);
    let p = one.minus(a);
    let q = one.minus(b);
    laws::law_minus_not_negative(one, a);
    laws::law_minus_not_negative(one, b);
    laws::law_times_commutes(vibrance, p);
    laws::law_times_commutes(vibrance, q);
    laws::law_times_one(vibrance);
    laws::law_times_zero(vibrance, zero);
    laws::law_plus_zero(one, zero.times(vibrance));
    laws::law_plus_zero(one, zero);
    if zero.less(vibrance) {
        laws::law_times_keeps_order(q, p, vibrance);
        laws::law_times_keeps_order(p, one, vibrance);
        laws::law_times_keeps_order(zero, q, vibrance);
        laws::law_plus_keeps_order(q.times(vibrance), p.times(vibrance), one);
        laws::law_plus_keeps_order(zero.times(vibrance), q.times(vibrance), one);
    } else {
        laws::law_times_turns_order(q, p, vibrance);
        laws::law_times_turns_order(p, one, vibrance);
        laws::law_plus_keeps_order(p.times(vibrance), q.times(vibrance), one);
        laws::law_plus_keeps_order(q.times(vibrance), zero, one);
    }
}

} // verus!
