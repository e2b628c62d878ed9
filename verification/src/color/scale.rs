//! The adjustments on one pixel scale and on another.

use crate::color::adjustments;
use crate::color::adjustments::Taken;
use crate::color::lut::identity::{amount, close, lemma_finite, lemma_round_error, lemma_sizes, plain, slip, unity};
use crate::ieee::grid;
use crate::ieee::grid::Format;
use crate::ieee::laws;
use crate::ieee::number;
use crate::ieee::single::Single;
use vstd::arithmetic::power2::*;
use vstd::prelude::*;

verus! {

/// The adjustments do not tell the scale of the pixels: pixels that stand for the
/// same color on two scales are graded alike, and what comes out on the scale of
/// `max_pixel_value` is what comes out on the scale of one, times that value.
pub proof fn law_scale_does_not_tell(
    px: [Single; 4],
    unit: [Single; 4],
    taken: Taken,
    adjust: [[Single; 4]; 4],
    max_pixel_value: Single,
    ch: int,
)
    requires
        0 <= ch < 3,
        adjustments::base(px, max_pixel_value) == adjustments::base(unit, Single::one()),
        !adjustments::graded(px, taken, adjust, max_pixel_value)[ch].nan(),
    ensures
        ({
            let one = Single::one();
            let c = adjustments::graded(px, taken, adjust, max_pixel_value);
            &&& c == adjustments::graded(unit, taken, adjust, one)
            &&& adjustments::finished(c[ch], max_pixel_value) == adjustments::finished(
                c[ch],
                one,
            ).times(max_pixel_value)
        }),
{
    let v = adjustments::graded(px, taken, adjust, max_pixel_value)[ch];
    laws::law_times_one(v.clamped(Single::zero(), Single::one()));
}

/// The step below a magnitude is no wider than the one above.
proof fn lemma_step_below(f: Format, k: nat, e: nat, r: nat)
    requires
        k > 0,
        k == e * f.binade() + r,
        grid::units(f, k) == r * pow2(e),
        r < 2 * f.binade(),
        e == 0 || f.binade() <= r,
    ensures
        grid::units(f, k) - grid::units(f, (k - 1) as nat) <= pow2(e),
{
    let b = f.binade();
    let w = pow2(e);
    lemma2_to64();
    if e == 0 || r > b {
        assert(r > 0);
        grid::lemma_units_at(f, e, (r - 1) as nat);
        assert(k - 1 == e * b + (r - 1));
        assert((r - 1) * w == r * w - w) by (nonlinear_arith);
    } else {
        let d = (e - 1) as nat;
        let h = pow2(d);
        lemma_pow2_unfold(e);
        grid::lemma_units_at(f, d, (2 * b - 1) as nat);
        assert(k - 1 == d * b + (2 * b - 1)) by (nonlinear_arith)
            requires
                k == e * b + b,
                d == e - 1,
        ;
        assert((2 * b - 1) * h == b * w - h) by (nonlinear_arith)
            requires
                w == 2 * h,
        ;
    }
}

/// A rounded ratio is off by half a step, which is no more than so small a part of
/// it, or by half a unit.
pub(crate) proof fn lemma_relative_in(f: Format, n: nat, d: nat, k: nat)
    requires
        d > 0,
        k == grid::round_magnitude(f, n, d),
        k < f.infinity(),
    ensures
        close(
            (grid::units(f, k) * d * (2 * f.binade())) as int,
            (n * (2 * f.binade())) as int,
            ((grid::units(f, k) + f.binade()) * d) as int,
        ),
{
    let h = f.binade();
    laws::law_nearest_exists(f, n, d);
    let (e, r) = grid::lemma_split(f, k);
    let w = pow2(e);
    let u = grid::units(f, k);
    grid::lemma_units_at(f, e, (r + 1) as nat);
    assert(k + 1 == e * h + (r + 1));
    let up = grid::units(f, k + 1);
    assert((r + 1) * w == r * w + w) by (nonlinear_arith);
    assert(up == u + w);
    lemma2_to64();
    assert(h * w <= u + h) by {
        if e == 0 {
            assert(w == 1);
        } else {
            assert(h * w <= r * w) by (nonlinear_arith)
                requires
                    h <= r,
            ;
        }
    }
    // A value above is less than half a step away.
    assert(2 * n <= (u + up) * d);
    assert((u + up) * d == 2 * (u * d) + w * d) by (nonlinear_arith)
        requires
            up == u + w,
    ;
    let b = u * d;
    // So is a value below.
    if k > 0 {
        let down = grid::units(f, (k - 1) as nat);
        assert((down + u) * d <= 2 * n);
        lemma_step_below(f, k, e, r);
        assert((down + u) * d >= 2 * b - w * d) by (nonlinear_arith)
            requires
                u - down <= w,
                b == u * d,
        ;
    } else {
        assert(u == 0);
        assert(0 * d == 0);
    }
    assert(h * (w * d) <= (u + h) * d) by (nonlinear_arith)
        requires
            h * w <= u + h,
    ;
    assert(2 * b - w * d <= 2 * n <= 2 * b + w * d);
    assert(h * (2 * b) - h * (w * d) <= h * (2 * n) <= h * (2 * b) + h * (w * d)) by (nonlinear_arith)
        requires
            2 * b - w * d <= 2 * n <= 2 * b + w * d,
    ;
    assert(u * d * (2 * h) == h * (2 * b) && n * (2 * h) == h * (2 * n)) by (nonlinear_arith)
        requires
            b == u * d,
    ;
}

/// The same in single precision: a rounded ratio is off by no more than its 2^24th
/// part, or by half a unit.
pub(crate) proof fn lemma_relative(n: nat, d: nat, k: nat)
    requires
        d > 0,
        k == grid::round_magnitude(Format::Single, n, d),
        k < Format::Single.infinity(),
    ensures
        close(
            (grid::units(Format::Single, k) * d * 0x100_0000) as int,
            (n * 0x100_0000) as int,
            ((grid::units(Format::Single, k) + 0x80_0000) * d) as int,
        ),
{
    lemma_relative_in(Format::Single, n, d, k);
}

/// Scaling a color up and back down moves it by no more than nine quarters of
/// 2^-24.
pub proof fn law_scaling_keeps_the_color(v: Single, max_pixel_value: Single)
    requires
        plain(v),
        v.at_most(Single::one()),
        Single::one().at_most(max_pixel_value),
        laws::is_finite(max_pixel_value),
    ensures
        ({
            let back = v.times(max_pixel_value).over(max_pixel_value);
            &&& plain(back)
            &&& amount(back) <= unity()
            &&& close(4 * amount(back), 4 * amount(v), 9 * slip())
        }),
{
    let f = Format::Single;
    let m = max_pixel_value;
    let one = 0x3f80_0000nat;
    let p = pow2(149);
    let a = v.number().index as nat;
    let c = m.number().index as nat;
    lemma_sizes();
    lemma_pow2_pos(149);
    grid::lemma_units_increase(f, a, one);
    grid::lemma_units_increase(f, one, c);
    let u = grid::units(f, a);
    let w = grid::units(f, c);
    assert(u <= p && p <= w);
    // Up.
    laws::law_nearest_exists(f, u * w, p);
    laws::law_rounding_keeps_values(f, c, p);
    assert((u * w) * p <= (w * p) * p) by (nonlinear_arith)
        requires
            u <= p,
    ;
    laws::law_rounding_keeps_order(f, u * w, p, w * p, p);
    let j = grid::round_magnitude(f, u * w, p);
    let x = grid::units(f, j);
    let scaled = v.times(m);
    assert(scaled.number().index == j);
    lemma_relative(u * w, p, j);
    grid::lemma_units_increase(f, j, c);
    assert(x <= w);
    // Down.
    laws::law_nearest_exists(f, x * p, w);
    laws::law_rounding_keeps_values(f, one, w);
    assert((x * p) * w <= (p * w) * w) by (nonlinear_arith)
        requires
            x <= w,
    ;
    laws::law_rounding_keeps_order(f, x * p, w, p * w, w);
    let k = grid::round_magnitude(f, x * p, w);
    let y = grid::units(f, k);
    let back = scaled.over(m);
    assert(back.number().index == k);
    lemma_relative(x * p, w, k);
    grid::lemma_units_increase(f, k, one);
    assert(y <= p);
    // A zero stays one both ways, so that no other value has a minus sign.
    if a == 0 {
        laws::law_times_zero(m, v);
        laws::law_zero_over(scaled, m);
    }
    lemma_trip(u, w, x, y);
}

proof fn lemma_trip(u: nat, w: nat, x: nat, y: nat)
    requires
        u <= unity(),
        unity() <= w,
        x <= w,
        y <= unity(),
        close(
            (x * pow2(149) * 0x100_0000) as int,
            ((u * w) * 0x100_0000) as int,
            ((x + 0x80_0000) * pow2(149)) as int,
        ),
        close(
            (y * w * 0x100_0000) as int,
            ((x * pow2(149)) * 0x100_0000) as int,
            ((y + 0x80_0000) * w) as int,
        ),
    ensures
        close(4 * y as int, 4 * u as int, 9 * slip()),
{
    let p = unity();
    let s = slip();
    lemma_sizes();
    lemma_pow2_pos(149);
    lemma2_to64();
    assert(p >= 0x400_0000) by {
        lemma_pow2_strictly_increases(26, 149);
    }
    assert(8 * ((x + 0x80_0000) * p) <= 9 * (w * p)) by (nonlinear_arith)
        requires
            x <= w,
            0x400_0000 <= w,
            p > 0,
    ;
    assert(8 * ((y + 0x80_0000) * w) <= 9 * (w * p)) by (nonlinear_arith)
        requires
            y <= p,
            0x400_0000 <= p,
            w >= 0,
    ;
    assert(w * p == 0x100_0000 * (w * s)) by (nonlinear_arith)
        requires
            p == 0x100_0000 * s,
    ;
    let a = u * w;
    let b = y * w;
    let g = w * s;
    assert(-9 * g <= 4 * (b - a) <= 9 * g);
    assert(4 * (y - u) <= 9 * s) by (nonlinear_arith)
        requires
            4 * (y * w - u * w) <= 9 * (w * s),
            w > 0,
    ;
    assert(4 * (u - y) <= 9 * s) by (nonlinear_arith)
        requires
            4 * (u * w - y * w) <= 9 * (w * s),
            w > 0,
    ;
}

/// A value over one is itself.
pub(crate) proof fn lemma_over_one(v: Single)
    requires
        laws::is_finite(v),
    ensures
        v.over(Single::one()) == v,
{
    let f = Format::Single;
    let k = v.number().index as nat;
    lemma_sizes();
    lemma_pow2_pos(149);
    laws::law_rounding_keeps_values(f, k, pow2(149));
    assert(v.over(Single::one()).number() == v.number());
}

/// A color from 0 to 1 times a gain up to two, before the clamp.
proof fn lemma_gained(x: Single, gain: Single)
    requires
        plain(x),
        plain(gain),
        amount(x) <= unity(),
        amount(gain) <= 2 * unity(),
    ensures
        plain(x.times(gain)),
        close(amount(x.times(gain)) * unity(), amount(x) * amount(gain), slip() * unity()),
{
    let p = unity();
    let a = amount(x);
    let b = amount(gain);
    let n = (a * b) as nat;
    lemma_sizes();
    lemma_pow2_pos(149);
    lemma_finite(x);
    lemma_finite(gain);
    assert(0 <= a * b <= 2 * p * p) by (nonlinear_arith)
        requires
            0 <= a <= p,
            0 <= b <= 2 * p,
    ;
    lemma_round_error(n, pow2(149));
    laws::law_nearest_exists(Format::Single, n, pow2(149));
    if a == 0 {
        laws::law_times_zero(gain, x);
    }
    if b == 0 {
        laws::law_times_zero(x, gain);
    }
}

/// What holding a value between 0 and 1 leaves of it.
proof fn lemma_held(x: Single)
    requires
        plain(x),
        amount(x) <= 3 * unity(),
    ensures
        ({
            let h = x.clamped(Single::zero(), Single::one());
            &&& plain(h)
            &&& amount(h) == if amount(x) <= unity() { amount(x) } else { unity() }
        }),
{
    let f = Format::Single;
    let one = 0x3f80_0000nat;
    let k = x.number().index as nat;
    lemma_sizes();
    if k > one {
        grid::lemma_units_increase(f, one, k);
    } else if k < one {
        grid::lemma_units_increase(f, k, one);
    }
}

/// A gain does the same on every pixel scale: what is left in the end differs by
/// no more than twelve times 2^-24 of the largest pixel value.
pub proof fn law_gains_agree_on_every_scale(v: Single, max_pixel_value: Single, gain: Single)
    requires
        plain(v),
        v.at_most(Single::one()),
        Single::one().at_most(max_pixel_value),
        laws::is_finite(max_pixel_value),
        plain(gain),
        gain.at_most(Single { bits: adjustments::TWO }),
    ensures
        ({
            let back = v.times(max_pixel_value).over(max_pixel_value);
            let scaled = adjustments::finished(back.times(gain), max_pixel_value);
            let unit = adjustments::finished(v.times(gain), Single::one());
            &&& plain(scaled)
            &&& plain(unit)
            &&& close(
                amount(scaled) * unity(),
                amount(unit) * amount(max_pixel_value),
                12 * (slip() * amount(max_pixel_value)),
            )
        }),
{
    let f = Format::Single;
    let m = max_pixel_value;
    let one = 0x3f80_0000nat;
    let c = m.number().index as nat;
    let p = unity();
    let t = slip();
    lemma_sizes();
    lemma_pow2_pos(149);
    grid::lemma_units_increase(f, v.number().index as nat, one);
    grid::lemma_units_increase(f, gain.number().index as nat, 0x4000_0000);
    grid::lemma_units_increase(f, one, c);
    let w = amount(m);
    // The channel before the gain, and after.
    law_scaling_keeps_the_color(v, m);
    let back = v.times(m).over(m);
    lemma_gained(v, gain);
    lemma_gained(back, gain);
    let x = v.times(gain);
    let y = back.times(gain);
    let (a, b, g) = (amount(v), amount(back), amount(gain));
    assert(-(8 * (t * p)) <= b * g - a * g <= 8 * (t * p)) by (nonlinear_arith)
        requires
            -(4 * t) <= b - a <= 4 * t,
            0 <= g <= 2 * p,
            t > 0,
    ;
    assert(amount(y) - amount(x) <= 10 * t) by (nonlinear_arith)
        requires
            amount(y) * p - amount(x) * p <= 10 * (t * p),
            p > 0,
    ;
    assert(amount(x) - amount(y) <= 10 * t) by (nonlinear_arith)
        requires
            amount(x) * p - amount(y) * p <= 10 * (t * p),
            p > 0,
    ;
    lemma_small(v, gain);
    lemma_small(back, gain);
    lemma_held(x);
    lemma_held(y);
    let hx = x.clamped(Single::zero(), Single::one());
    let hy = y.clamped(Single::zero(), Single::one());
    laws::law_times_one(hx);
    // Back on the scale.
    lemma_on_scale(hy, m);
    let z = amount(hy.times(m));
    let (q, r) = (amount(hy), amount(hx));
    assert(-(10 * (t * w)) <= q * w - r * w <= 10 * (t * w)) by (nonlinear_arith)
        requires
            -(10 * t) <= q - r <= 10 * t,
            w >= 0,
    ;
}

/// The product stays below three.
proof fn lemma_small(x: Single, gain: Single)
    requires
        plain(x),
        plain(gain),
        amount(x) <= unity(),
        amount(gain) <= 2 * unity(),
    ensures
        amount(x.times(gain)) <= 3 * unity(),
{
    let p = unity();
    let y = amount(x.times(gain));
    lemma_sizes();
    lemma_pow2_pos(149);
    lemma_gained(x, gain);
    assert(amount(x) * amount(gain) <= 2 * p * p) by (nonlinear_arith)
        requires
            0 <= amount(x) <= p,
            0 <= amount(gain) <= 2 * p,
    ;
    assert(y <= 3 * p) by (nonlinear_arith)
        requires
            y * p <= 2 * p * p + slip() * p,
            slip() <= p,
            p > 0,
    ;
}

/// A value from 0 to 1 times the largest pixel value is off by no more than twice
/// 2^-24 of the latter.
pub(crate) proof fn lemma_on_scale(q: Single, m: Single)
    requires
        plain(q),
        amount(q) <= unity(),
        Single::one().at_most(m),
        laws::is_finite(m),
    ensures
        plain(q.times(m)),
        close(amount(q.times(m)) * unity(), amount(q) * amount(m), 2 * (slip() * amount(m))),
{
    let f = Format::Single;
    let one = 0x3f80_0000nat;
    let p = pow2(149);
    let s = slip();
    lemma_sizes();
    lemma_finite(q);
    lemma_pow2_pos(149);
    let c = m.number().index as nat;
    grid::lemma_units_increase(f, one, c);
    let u = grid::units(f, q.number().index as nat);
    let w = grid::units(f, c);
    laws::law_rounding_keeps_values(f, c, p);
    assert((u * w) * p <= (w * p) * p) by (nonlinear_arith)
        requires
            u <= p,
    ;
    laws::law_rounding_keeps_order(f, u * w, p, w * p, p);
    laws::law_nearest_exists(f, u * w, p);
    let j = grid::round_magnitude(f, u * w, p);
    grid::lemma_units_increase(f, j, c);
    let z = grid::units(f, j);
    assert(q.times(m).number().index == j);
    if q.number().index == 0 {
        laws::law_times_zero(m, q);
    }
    lemma_relative(u * w, p, j);
    assert((z + 0x80_0000) * p <= 2 * (w * p)) by (nonlinear_arith)
        requires
            z <= w,
            0x80_0000 <= w,
    ;
    assert(w * p == 0x100_0000 * (s * w)) by (nonlinear_arith)
        requires
            p == 0x100_0000 * s,
    ;
}

/// The gain of a luminance from -1 to 1 lies between 0 and 2.
proof fn lemma_luminance_gain(luminance: Single)
    requires
        Single::one().opposite().at_most(luminance),
        luminance.at_most(Single::one()),
        adjustments::active(luminance),
    ensures
        ({
            let half = Single { bits: adjustments::LUMINANCE_GAIN };
            let gain = Single::one().plus(luminance.times(half));
            plain(gain) && gain.at_most(Single { bits: adjustments::TWO })
        }),
{
    let f = Format::Single;
    let one = Single::one();
    let zero = Single::zero();
    let half = Single { bits: adjustments::LUMINANCE_GAIN };
    let push = luminance.times(half);
    laws::law_times_commutes(luminance, half);
    laws::law_times_one(luminance);
    if zero.less(luminance) {
        laws::law_times_keeps_order(half, one, luminance);
        laws::law_times_keeps_order(zero, half, luminance);
        laws::law_times_zero(luminance, zero);
    } else {
        laws::law_times_turns_order(half, one, luminance);
    }
    let below = one.opposite();
    assert(below.at_most(push) && push.at_most(one));
    laws::law_plus_keeps_order(below, push, one);
    laws::law_plus_keeps_order(push, one, one);
    laws::law_minus_itself(one);
    assert(one.plus(below) == one.minus(one));
    lemma_sizes();
    laws::law_rounding_keeps_values(f, 0x4000_0000, 1);
    assert((2 * pow2(149)) * 1 == 2 * pow2(149));
    assert(number::signed_units(f, one.number()) == pow2(149));
    assert(one.plus(one).number() == number::rounded_units(f, (2 * pow2(149)) as int));
    assert(one.plus(one).number().index == 0x4000_0000);
}

/// Only luminance is off neutral, and within its range.
pub open spec fn only_luminance(adjust: [[Single; 4]; 4]) -> bool {
    &&& adjustments::active(adjust[0][1])
    &&& Single::one().opposite().at_most(adjust[0][1])
    &&& adjust[0][1].at_most(Single::one())
    &&& forall|i: int, j: int|
        0 <= i < 3 && 0 <= j < 4 && !(i == 0 && j == 1) ==> !adjustments::active(
            #[trigger] adjust[i][j],
        )
}

/// Luminance does the same on every pixel scale: what it makes of a color differs
/// by no more than twelve times 2^-24 of the largest pixel value.
pub proof fn law_luminance_agrees_on_every_scale(
    unit: [Single; 4],
    px: [Single; 4],
    taken: Taken,
    adjust: [[Single; 4]; 4],
    max_pixel_value: Single,
    ch: int,
)
    requires
        0 <= ch < 3,
        plain(unit[ch]),
        unit[ch].at_most(Single::one()),
        px[ch] == unit[ch].times(max_pixel_value),
        Single::one().at_most(max_pixel_value),
        laws::is_finite(max_pixel_value),
        only_luminance(adjust),
    ensures
        ({
            let one = Single::one();
            let wide = adjustments::graded(px, taken, adjust, max_pixel_value)[ch];
            let narrow = adjustments::graded(unit, taken, adjust, one)[ch];
            let scaled = adjustments::finished(wide, max_pixel_value);
            let plainly = adjustments::finished(narrow, one);
            &&& plain(scaled)
            &&& plain(plainly)
            &&& close(
                amount(scaled) * unity(),
                amount(plainly) * amount(max_pixel_value),
                12 * (slip() * amount(max_pixel_value)),
            )
        }),
{
    let one = Single::one();
    let half = Single { bits: adjustments::LUMINANCE_GAIN };
    let gain = one.plus(adjust[0][1].times(half));
    lemma_luminance_gain(adjust[0][1]);
    lemma_over_one(unit[ch]);
    law_gains_agree_on_every_scale(unit[ch], max_pixel_value, gain);
    assert(adjustments::base(unit, one)[ch] == unit[ch]);
    lemma_only_luminance(px, taken, adjust, max_pixel_value, ch);
    lemma_only_luminance(unit, taken, adjust, one, ch);
}

/// What the stages make of a channel where only luminance is off neutral.
proof fn lemma_only_luminance(
    px: [Single; 4],
    taken: Taken,
    adjust: [[Single; 4]; 4],
    max_pixel_value: Single,
    ch: int,
)
    requires
        0 <= ch < 3,
        only_luminance(adjust),
    ensures
        adjustments::graded(px, taken, adjust, max_pixel_value)[ch] == px[ch].over(
            max_pixel_value,
        ).times(
            Single::one().plus(
                adjust[0][1].times(Single { bits: adjustments::LUMINANCE_GAIN }),
            ),
        ),
{
    assert(!adjustments::active(adjust[0][0]) && !adjustments::active(adjust[0][2]));
    assert(!adjustments::active(adjust[0][3]) && !adjustments::active(adjust[1][0]));
    assert(!adjustments::active(adjust[1][1]) && !adjustments::active(adjust[1][2]));
    assert(!adjustments::active(adjust[1][3]) && !adjustments::active(adjust[2][0]));
    assert(!adjustments::active(adjust[2][1]) && !adjustments::active(adjust[2][2]));
    assert(!adjustments::active(adjust[2][3]));
    let gain = Single::one().plus(
        adjust[0][1].times(Single { bits: adjustments::LUMINANCE_GAIN }),
    );
    let c = adjustments::base(px, max_pixel_value);
    assert(adjustments::with_luminance(c, adjust[0][1]) == adjustments::lifted(c, gain));
}

} // verus!
