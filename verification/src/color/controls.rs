//! Each control acts through a stage of its own, and the stages follow one another.

use crate::color::adjustments;
use crate::color::adjustments::{active, base, graded};
use crate::color::adjustments::{ColorAdjustments, Control, Taken};
use crate::color::scale;
use crate::ieee::grid;
use crate::ieee::grid::Format;
use crate::ieee::laws;
use crate::ieee::number;
use crate::ieee::single::Single;
use vstd::prelude::*;

verus! {

/// A hundredth of zero is zero.
proof fn lemma_neutral(v: Single)
    requires
        !active(v),
    ensures
        !active(v.over(Single { bits: 0x42c8_0000 })),
        v == Single::zero() ==> v.over(Single { bits: 0x42c8_0000 }) == Single::zero(),
{
    let hundred = Single { bits: 0x42c8_0000 };
    assert(v.number().index == 0);
    assert(hundred.number().index == 0x42c8_0000);
    laws::law_zero_over(v, hundred);
    let f = Format::Single;
    grid::lemma_units_increase(f, 0, 0x42c8_0000);
    number::lemma_round_zero(f, grid::units(f, 0x42c8_0000));
    if v == Single::zero() {
        assert(v.over(hundred).number() == v.number());
    }
}

/// Every control but one is at neutral.
pub open spec fn only(a: ColorAdjustments, c: Control) -> bool {
    forall|d: Control| d != c ==> !active(#[trigger] a.value(d))
}

/// With one control off neutral, applying the packed settings is that control's
/// stage alone, with a hundredth of the slider as its amount: nothing else acts,
/// and no other stage takes the control for its own.
///
/// Blacks and shadows are the dark bands with edges 0 and 0.25 and edges 0 and
/// 0.5, highlights and whites the bright ones with edges 0.5 and 1 and edges 0.75
/// and 1. Sharpness does not act on a pixel at all.
pub proof fn law_each_control_has_its_stage(
    a: ColorAdjustments,
    c: Control,
    px: [Single; 4],
    taken: Taken,
    max_pixel_value: Single,
)
    requires
        only(a, c),
    ensures
        ({
            let full = Single { bits: 0x42c8_0000 };
            let (zero, quarter) = (Single { bits: 0 }, Single { bits: 0x3e80_0000 });
            let (half, three) = (Single { bits: 0x3f00_0000 }, Single { bits: 0x3f40_0000 });
            let one = Single { bits: 0x3f80_0000 };
            let x = base(px, max_pixel_value);
            let r = graded(px, taken, a.packed(), max_pixel_value);
            match c {
                Control::Exposure => r == adjustments::with_exposure(
                    x,
                    a.exposure.over(full),
                    taken.gain,
                    taken.powers,
                ),
                Control::Luminance => r == adjustments::with_luminance(x, a.luminance.over(full)),
                Control::Contrast => r == adjustments::with_contrast(x, a.contrast.over(full)),
                Control::Blacks => r == adjustments::with_band(
                    x,
                    a.blacks.over(full),
                    zero,
                    quarter,
                    true,
                ),
                Control::Shadows => r == adjustments::with_band(
                    x,
                    a.shadows.over(full),
                    zero,
                    half,
                    true,
                ),
                Control::Highlights => r == adjustments::with_band(
                    x,
                    a.highlights.over(full),
                    half,
                    one,
                    false,
                ),
                Control::Whites => r == adjustments::with_band(
                    x,
                    a.whites.over(full),
                    three,
                    one,
                    false,
                ),
                Control::Temperature => a.tint == zero ==> r == adjustments::with_balance(
                    x,
                    a.temperature.over(full),
                    zero,
                ),
                Control::Tint => a.temperature == zero ==> r == adjustments::with_balance(
                    x,
                    zero,
                    a.tint.over(full),
                ),
                Control::Saturation => r == adjustments::with_saturation(x, a.saturation.over(full)),
                Control::Vibrance => r == adjustments::with_vibrance(x, a.vibrance.over(full)),
                Control::Vignette => r == adjustments::with_vignette(
                    x,
                    a.vignette.over(full),
                    taken.reach,
                    taken.corner,
                ),
                Control::Sharpness => r == x && a.packed()[3][0] == a.sharpness.over(full),
            }
        }),
{
    lemma_all_neutral(a, c);
}

proof fn lemma_all_neutral(a: ColorAdjustments, c: Control)
    requires
        only(a, c),
    ensures
        ({
            let p = a.packed();
            &&& c != Control::Exposure ==> !active(p[0][0])
            &&& c != Control::Luminance ==> !active(p[0][1])
            &&& c != Control::Contrast ==> !active(p[0][2])
            &&& c != Control::Highlights ==> !active(p[0][3])
            &&& c != Control::Shadows ==> !active(p[1][0])
            &&& c != Control::Whites ==> !active(p[1][1])
            &&& c != Control::Blacks ==> !active(p[1][2])
            &&& c != Control::Temperature ==> !active(p[1][3])
            &&& c != Control::Tint ==> !active(p[2][0])
            &&& c != Control::Saturation ==> !active(p[2][1])
            &&& c != Control::Vibrance ==> !active(p[2][2])
            &&& c != Control::Vignette ==> !active(p[2][3])
            &&& a.temperature == Single::zero() ==> p[1][3] == Single::zero()
            &&& a.tint == Single::zero() ==> p[2][0] == Single::zero()
        }),
{
    assert forall|d: Control| d != c implies !active(
        (#[trigger] a.value(d)).over(Single { bits: 0x42c8_0000 }),
    ) by {
        lemma_neutral(a.value(d));
    }
    assert(!active(Single::zero())) by {
        assert(Single::zero().number().index == 0);
    }
    lemma_neutral(Single::zero());
    assert(a.value(Control::Exposure) == a.exposure);
    assert(a.value(Control::Luminance) == a.luminance);
    assert(a.value(Control::Contrast) == a.contrast);
    assert(a.value(Control::Highlights) == a.highlights);
    assert(a.value(Control::Shadows) == a.shadows);
    assert(a.value(Control::Whites) == a.whites);
    assert(a.value(Control::Blacks) == a.blacks);
    assert(a.value(Control::Temperature) == a.temperature);
    assert(a.value(Control::Tint) == a.tint);
    assert(a.value(Control::Saturation) == a.saturation);
    assert(a.value(Control::Vibrance) == a.vibrance);
    assert(a.value(Control::Vignette) == a.vignette);
}

/// The slots that the kernels read: slot `i` holds a hundredth of what reads under
/// the `i`-th of these names, and what is left is zero.
pub proof fn law_slots_follow_the_names(a: ColorAdjustments, i: int)
    requires
        0 <= i < 16,
    ensures
        ({
            let names = seq![
                "exposure"@,
                "luminance"@,
                "contrast"@,
                "highlights"@,
                "shadows"@,
                "whites"@,
                "blacks"@,
                "temperature"@,
                "tint"@,
                "saturation"@,
                "vibrance"@,
                "vignette"@,
                "sharpness"@,
            ];
            let slot = a.packed()[i / 4][i % 4];
            if i < 13 {
                slot == a.reading(names[i]).over(Single { bits: 0x42c8_0000 })
            } else {
                slot == Single { bits: 0 }
            }
        }),
{
    lemma_names_differ();
}

/// The names are thirteen different ones.
proof fn lemma_names_differ()
    ensures
        adjustments::control_named("exposure"@) == Some(Control::Exposure),
        adjustments::control_named("luminance"@) == Some(Control::Luminance),
        adjustments::control_named("contrast"@) == Some(Control::Contrast),
        adjustments::control_named("highlights"@) == Some(Control::Highlights),
        adjustments::control_named("shadows"@) == Some(Control::Shadows),
        adjustments::control_named("whites"@) == Some(Control::Whites),
        adjustments::control_named("blacks"@) == Some(Control::Blacks),
        adjustments::control_named("temperature"@) == Some(Control::Temperature),
        adjustments::control_named("tint"@) == Some(Control::Tint),
        adjustments::control_named("saturation"@) == Some(Control::Saturation),
        adjustments::control_named("vibrance"@) == Some(Control::Vibrance),
        adjustments::control_named("sharpness"@) == Some(Control::Sharpness),
        adjustments::control_named("vignette"@) == Some(Control::Vignette),
{
    reveal_strlit("exposure");
    reveal_strlit("luminance");
    reveal_strlit("contrast");
    reveal_strlit("highlights");
    reveal_strlit("shadows");
    reveal_strlit("whites");
    reveal_strlit("blacks");
    reveal_strlit("temperature");
    reveal_strlit("tint");
    reveal_strlit("saturation");
    reveal_strlit("vibrance");
    reveal_strlit("sharpness");
    reveal_strlit("vignette");
    assert("exposure"@[0] == 'e' && "exposure"@.len() == 8);
    assert("luminance"@[0] == 'l' && "luminance"@.len() == 9);
    assert("contrast"@[0] == 'c' && "contrast"@.len() == 8);
    assert("highlights"@[0] == 'h' && "highlights"@.len() == 10);
    assert("shadows"@[0] == 's' && "shadows"@.len() == 7);
    assert("whites"@[0] == 'w' && "whites"@.len() == 6);
    assert("blacks"@[0] == 'b' && "blacks"@.len() == 6);
    assert("temperature"@[0] == 't' && "temperature"@.len() == 11);
    assert("tint"@[0] == 't' && "tint"@.len() == 4);
    assert("saturation"@[0] == 's' && "saturation"@.len() == 10);
    assert("vibrance"@[0] == 'v' && "vibrance"@.len() == 8 && "vibrance"@[2] == 'b');
    assert("sharpness"@[0] == 's' && "sharpness"@.len() == 9);
    assert("vignette"@[0] == 'v' && "vignette"@.len() == 8 && "vignette"@[2] == 'g');
}

/// When a control acts: exposure, luminance, contrast, blacks, shadows, highlights,
/// whites, temperature together with tint, saturation, vibrance, vignette.
pub open spec fn turn(c: Control) -> int {
    match c {
        Control::Exposure => 0,
        Control::Luminance => 1,
        Control::Contrast => 2,
        Control::Blacks => 3,
        Control::Shadows => 4,
        Control::Highlights => 5,
        Control::Whites => 6,
        Control::Temperature => 7,
        Control::Tint => 7,
        Control::Saturation => 8,
        Control::Vibrance => 9,
        Control::Vignette => 10,
        Control::Sharpness => 11,
    }
}

/// `part` is `a` with every control outside the turns `from..to` at neutral.
pub open spec fn part_of(part: ColorAdjustments, a: ColorAdjustments, from: int, to: int) -> bool {
    forall|c: Control|
        #[trigger] part.value(c) == if from <= turn(c) < to {
            a.value(c)
        } else {
            Single { bits: 0 }
        }
}

/// The controls act one after another, in the order of their turns: to apply all of
/// them is to apply those of the first `k` turns, and then the others to what that
/// gave.
pub proof fn law_controls_take_turns(
    a: ColorAdjustments,
    early: ColorAdjustments,
    late: ColorAdjustments,
    k: int,
    px: [Single; 4],
    taken: Taken,
    max_pixel_value: Single,
)
    requires
        0 <= k <= 12,
        part_of(early, a, 0, k),
        part_of(late, a, k, 12),
        forall|ch: int|
            0 <= ch < 3 ==> laws::is_finite(
                #[trigger] graded(px, taken, early.packed(), max_pixel_value)[ch],
            ),
    ensures
        ({
            let first = graded(px, taken, early.packed(), max_pixel_value);
            let then = graded([first[0], first[1], first[2], px[3]], taken, late.packed(), Single::one());
            then == graded(px, taken, a.packed(), max_pixel_value)
        }),
{
    let first = graded(px, taken, early.packed(), max_pixel_value);
    let next = [first[0], first[1], first[2], px[3]];
    scale::lemma_over_one(first[0]);
    scale::lemma_over_one(first[1]);
    scale::lemma_over_one(first[2]);
    assert(base(next, Single::one()) =~= first);
    lemma_part(early, a, 0, k);
    lemma_part(late, a, k, 12);
    lemma_turns(base(px, max_pixel_value), taken, a.packed(), early.packed(), late.packed(), k);
}

/// The slots of a part: those of the whole in its turns, neutral elsewhere.
pub open spec fn slots_of(p: [[Single; 4]; 4], q: [[Single; 4]; 4], from: int, to: int) -> bool {
    &&& if from <= 0 < to { p[0][0] == q[0][0] } else { !active(p[0][0]) }
    &&& if from <= 1 < to { p[0][1] == q[0][1] } else { !active(p[0][1]) }
    &&& if from <= 2 < to { p[0][2] == q[0][2] } else { !active(p[0][2]) }
    &&& if from <= 3 < to { p[1][2] == q[1][2] } else { !active(p[1][2]) }
    &&& if from <= 4 < to { p[1][0] == q[1][0] } else { !active(p[1][0]) }
    &&& if from <= 5 < to { p[0][3] == q[0][3] } else { !active(p[0][3]) }
    &&& if from <= 6 < to { p[1][1] == q[1][1] } else { !active(p[1][1]) }
    &&& if from <= 7 < to { p[1][3] == q[1][3] } else { !active(p[1][3]) }
    &&& if from <= 7 < to { p[2][0] == q[2][0] } else { !active(p[2][0]) }
    &&& if from <= 8 < to { p[2][1] == q[2][1] } else { !active(p[2][1]) }
    &&& if from <= 9 < to { p[2][2] == q[2][2] } else { !active(p[2][2]) }
    &&& if from <= 10 < to { p[2][3] == q[2][3] } else { !active(p[2][3]) }
}

proof fn lemma_part(part: ColorAdjustments, a: ColorAdjustments, from: int, to: int)
    requires
        part_of(part, a, from, to),
    ensures
        slots_of(part.packed(), a.packed(), from, to),
{
    assert(!active(Single::zero())) by {
        assert(Single::zero().number().index == 0);
    }
    lemma_neutral(Single::zero());
    assert(part.value(Control::Exposure) == part.exposure);
    assert(part.value(Control::Luminance) == part.luminance);
    assert(part.value(Control::Contrast) == part.contrast);
    assert(part.value(Control::Highlights) == part.highlights);
    assert(part.value(Control::Shadows) == part.shadows);
    assert(part.value(Control::Whites) == part.whites);
    assert(part.value(Control::Blacks) == part.blacks);
    assert(part.value(Control::Temperature) == part.temperature);
    assert(part.value(Control::Tint) == part.tint);
    assert(part.value(Control::Saturation) == part.saturation);
    assert(part.value(Control::Vibrance) == part.vibrance);
    assert(part.value(Control::Vignette) == part.vignette);
}

/// The stages on a color.
pub open spec fn staged(c: [Single; 3], taken: Taken, adjust: [[Single; 4]; 4]) -> [Single; 3] {
    let c = adjustments::with_exposure(c, adjust[0][0], taken.gain, taken.powers);
    let c = adjustments::with_luminance(c, adjust[0][1]);
    let c = adjustments::with_contrast(c, adjust[0][2]);
    let c = adjustments::with_tones(c, adjust[1][2], adjust[1][0], adjust[0][3], adjust[1][1]);
    let c = adjustments::with_balance(c, adjust[1][3], adjust[2][0]);
    let c = adjustments::with_saturation(c, adjust[2][1]);
    let c = adjustments::with_vibrance(c, adjust[2][2]);
    adjustments::with_vignette(c, adjust[2][3], taken.reach, taken.corner)
}

proof fn lemma_turns(
    c: [Single; 3],
    taken: Taken,
    q: [[Single; 4]; 4],
    p: [[Single; 4]; 4],
    r: [[Single; 4]; 4],
    k: int,
)
    requires
        0 <= k <= 12,
        slots_of(p, q, 0, k),
        slots_of(r, q, k, 12),
    ensures
        staged(staged(c, taken, p), taken, r) == staged(c, taken, q),
{
}

} // verus!
