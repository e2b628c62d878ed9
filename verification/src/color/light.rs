//! What exposure does to light, where a pixel stands, and what is left in the end.

use crate::color::adjustments;
use crate::color::adjustments::{ColorAdjustments, Curve, Powers};
use crate::color::amounts;
use crate::color::amounts::agrees;
use crate::color::bounded;
use crate::color::laws as color_laws;
use crate::color::drift::{grain, quarter, units_of, whole, within};
use crate::color::drift::{lemma_clamp, lemma_ends, lemma_measures, lemma_minus, lemma_order};
use crate::color::drift::{lemma_multiplied, lemma_over, lemma_plus, lemma_scaled};
use crate::color::lut::identity;
use crate::color::lut::identity::{amount, close, plain, slip, unity};
use crate::color::scale;
use crate::color::tones::held;
use crate::ieee::laws;
use crate::ieee::single::Single;
use vstd::arithmetic::power2::*;
use vstd::prelude::*;

verus! {

/// 0.081, 0.018, 0.099 and 1.099, each to within two grains.
proof fn lemma_decimals()
    ensures
        close(1000 * units_of(Single { bits: 0x3da5_e354 }), 81 * whole(), 1000 * grain()),
        close(1000 * units_of(Single { bits: 0x3c93_74bc }), 18 * whole(), 1000 * grain()),
        close(1000 * units_of(Single { bits: 0x3dca_c083 }), 99 * whole(), 1000 * grain()),
        close(1000 * units_of(Single { bits: 0x3f8c_ac08 }), 1099 * whole(), 2000 * grain()),
        within(Single { bits: 0x3da5_e354 }, 0, 1),
        within(Single { bits: 0x3c93_74bc }, 0, 1),
        within(Single { bits: 0x3dca_c083 }, 0, 1),
        within(Single { bits: 0x3f8c_ac08 }, 4, 5),
{
    reveal(units_of);
    lemma_measures();
    lemma2_to64();
    let (a, b) = (Single { bits: 0x3da5_e354 }, Single { bits: 0x3c93_74bc });
    let (c, d) = (Single { bits: 0x3dca_c083 }, Single { bits: 0x3f8c_ac08 });
    assert(a.number().index == 0x3da5_e354 && !a.number().negative);
    assert(b.number().index == 0x3c93_74bc && !b.number().negative);
    assert(c.number().index == 0x3dca_c083 && !c.number().negative);
    assert(d.number().index == 0x3f8c_ac08 && !d.number().negative);
    assert(0x3da5_e354nat / 0x80_0000nat == 123 && 0x3da5_e354nat % 0x80_0000nat == 0x25_e354);
    assert(0x3c93_74bcnat / 0x80_0000nat == 121 && 0x3c93_74bcnat % 0x80_0000nat == 0x13_74bc);
    assert(0x3dca_c083nat / 0x80_0000nat == 123 && 0x3dca_c083nat % 0x80_0000nat == 0x4a_c083);
    assert(0x3f8c_ac08nat / 0x80_0000nat == 127 && 0x3f8c_ac08nat % 0x80_0000nat == 0x0c_ac08);
    let h = pow2(120) as int;
    lemma_pow2_pos(120);
    lemma_pow2_unfold(121);
    lemma_pow2_unfold(122);
    lemma_pow2_unfold(123);
    lemma_pow2_unfold(124);
    lemma_pow2_unfold(125);
    lemma_pow2_unfold(126);
    assert(pow2(122) == 4 * h && pow2(126) == 64 * h && grain() == 8 * h);
    assert((0x80_0000 + 0x25_e354) * (4 * h) == 43486544 * h) by (nonlinear_arith);
    assert((0x80_0000 + 0x13_74bc) * h == 9663676 * h) by (nonlinear_arith);
    assert((0x80_0000 + 0x4a_c083) * (4 * h) == 53150220 * h) by (nonlinear_arith);
    assert((0x80_0000 + 0x0c_ac08) * (64 * h) == 590021120 * h) by (nonlinear_arith);
    assert(whole() == 0x2000_0000 * h);
}

/// A slider is packed as its hundredth.
pub proof fn law_sliders_are_hundredths(v: Single)
    requires
        within(v, -400, 400),
    ensures
        within(ColorAdjustments::scaled(v), -4, 4),
        agrees(units_of(ColorAdjustments::scaled(v)), units_of(v), 100),
{
    let (w, g, q) = (whole(), grain(), quarter());
    let full = Single { bits: 0x42c8_0000 };
    lemma_measures();
    assert(within(full, 400, 400)) by {
        reveal(units_of);
        lemma2_to64();
        assert(full.number().index == 0x42c8_0000 && !full.number().negative);
        assert(0x42c8_0000nat / 0x80_0000nat == 133 && 0x42c8_0000nat % 0x80_0000nat == 0x48_0000);
        lemma_pow2_adds(9, 123);
        assert(pow2(132) == 512 * grain());
        assert((0x80_0000 + 0x48_0000) * (512 * grain()) == 400 * (0x100_0000 * grain())) by (nonlinear_arith);
    }
    let (u, f) = (units_of(v), units_of(full));
    assert((-4 * q) * f <= u * w <= (4 * q) * f) by (nonlinear_arith)
        requires
            -400 * q <= u <= 400 * q,
            f == 400 * q,
            w == 4 * q,
            q > 0,
    ;
    lemma_over(v, full, -4, 4, 4);
    let r = units_of(v.over(full));
    assert(close(r * 100, u, (5 * g) * 100)) by (nonlinear_arith)
        requires
            close(r * f, u * w, ((4 + 1) * g) * f),
            f == 100 * w,
            w > 0,
    ;
    amounts::lemma_agrees(r, u, 100, 5);
}

/// Exposure runs over two stops either way.
pub proof fn law_exposure_is_in_stops(e: Single)
    requires
        within(e, -4, 4),
    ensures
        agrees(units_of(e.times(Single { bits: adjustments::EXPOSURE_STOPS })), 2 * units_of(e), 1),
{
    let (w, g, q) = (whole(), grain(), quarter());
    let two = Single { bits: 0x4000_0000 };
    lemma_measures();
    bounded::lemma_fractions();
    assert(laws::is_finite(two)) by {
        assert(two.number().index < 0x7f80_0000);
    }
    lemma_scaled(e, two, -4, 4, 8, -8, 8, 8);
    let (u, r) = (units_of(e), units_of(e.times(two)));
    assert(close(r, 2 * u, 9 * g)) by (nonlinear_arith)
        requires
            close(r * w, u * (8 * q), ((8 + 1) * g) * w),
            w == 4 * q,
            w > 0,
    ;
    assert(r * 1 == r && (9 * g) * 1 == 9 * g);
    amounts::lemma_agrees(r, 2 * u, 1, 9);
}

/// Display-encoded to linear light: up to 0.081 a straight line of slope 4.5, and
/// past it a power of the code plus 0.099, over 1.099.
pub proof fn law_light_of_a_code(v: Single)
    requires
        within(v, 0, 4),
    ensures
        1000 * units_of(v) < 81 * whole() - 1000 * grain() ==> {
            &&& adjustments::eotf(v) matches Curve::Known(r)
            &&& within(r, 0, 4)
            &&& agrees(units_of(r), 2 * units_of(v), 9)
        },
        1000 * units_of(v) > 81 * whole() + 1000 * grain() ==> {
            &&& adjustments::eotf(v) matches Curve::PowerOf(b)
            &&& agrees(units_of(b), 1000 * units_of(v) + 99 * whole(), 1099)
        },
{
    let (w, g, q) = (whole(), grain(), quarter());
    lemma_measures();
    lemma_decimals();
    bounded::lemma_curve_constants();
    let limit = Single { bits: 0x3da5_e354 };
    lemma_order(v, limit);
    let u = units_of(v);
    if 1000 * u < 81 * w - 1000 * g {
        lemma_line(v);
    } else if 1000 * u > 81 * w + 1000 * g {
        let (off, top) = (Single { bits: 0x3dca_c083 }, Single { bits: 0x3f8c_ac08 });
        lemma_plus(v, off, 0, 5, 5);
        let x = v.plus(off);
        let (m, n) = (units_of(x), units_of(top));
        assert((0 * q) * n <= m * w <= (5 * q) * n) by (nonlinear_arith)
            requires
                0 <= m <= 5 * q,
                n >= 4 * q,
                w == 4 * q,
                q > 0,
        ;
        lemma_over(x, top, 0, 5, 5);
        let b = units_of(x.over(top));
        lemma_base_moved(b, m, n, u, units_of(off), w, g);
        amounts::lemma_agrees(b, 1000 * u + 99 * w, 1099, 20);
    }
}

/// The straight part, from code to light.
proof fn lemma_line(v: Single)
    requires
        within(v, 0, 4),
    ensures
        ({
            let r = v.over(Single { bits: 0x4090_0000 });
            &&& within(r, 0, 4)
            &&& close(units_of(r) * 9, 2 * units_of(v), (5 * grain()) * 9)
            &&& agrees(units_of(r), 2 * units_of(v), 9)
        }),
{
    let (w, g, q) = (whole(), grain(), quarter());
    let slope = Single { bits: 0x4090_0000 };
    lemma_measures();
    bounded::lemma_curve_constants();
    let (u, d) = (units_of(v), units_of(slope));
    assert((0 * q) * d <= u * w <= (4 * q) * d) by (nonlinear_arith)
        requires
            0 <= u <= 4 * q,
            w == 4 * q,
            d == 18 * q,
            q > 0,
    ;
    lemma_over(v, slope, 0, 4, 4);
    let r = units_of(v.over(slope));
    assert(close(r * 9, 2 * u, (5 * g) * 9)) by (nonlinear_arith)
        requires
            close(r * d, u * w, ((4 + 1) * g) * d),
            d == 18 * q,
            w == 4 * q,
            q > 0,
    ;
    amounts::lemma_agrees(r, 2 * u, 9, 5);
}

proof fn lemma_base_moved(b: int, m: int, n: int, u: int, off: int, w: int, g: int)
    requires
        close(b * n, m * w, (6 * g) * n),
        close(m, u + off, 5 * g),
        close(1000 * n, 1099 * w, 2000 * g),
        close(1000 * off, 99 * w, 1000 * g),
        0 <= b,
        4 * b <= 5 * w,
        4 * n <= 5 * w,
        n >= 0,
        w > 0,
        g > 0,
    ensures
        close(b * 1099, 1000 * u + 99 * w, (20 * g) * 1099),
{
    let (i, j, k) = (b * n - m * w, m - (u + off), 1000 * n - 1099 * w);
    let l = 1000 * off - 99 * w;
    // 1099 b w is 1000 b n, but for b times the error of the scale.
    assert((b * 1099) * w == 1000 * (b * n) - b * k) by (nonlinear_arith)
        requires
            k == 1000 * n - 1099 * w,
    ;
    assert(-((2500 * g) * w) <= b * k <= (2500 * g) * w) by (nonlinear_arith)
        requires
            -(2000 * g) <= k <= 2000 * g,
            0 <= b,
            4 * b <= 5 * w,
            g > 0,
    {
        assert(-(b * (2000 * g)) <= b * k <= b * (2000 * g));
        assert(4 * (b * (2000 * g)) <= (5 * w) * (2000 * g));
    }
    assert(-((8 * g) * w) <= i <= (8 * g) * w) by (nonlinear_arith)
        requires
            -((6 * g) * n) <= i <= (6 * g) * n,
            4 * n <= 5 * w,
            n >= 0,
            g > 0,
            w > 0,
    {
        assert(4 * ((6 * g) * n) <= (6 * g) * (5 * w));
    }
    assert(1000 * (m * w) == (1000 * u + 99 * w) * w + l * w + 1000 * (j * w)) by (nonlinear_arith)
        requires
            j == m - (u + off),
            l == 1000 * off - 99 * w,
    ;
    assert(-((1000 * g) * w) <= l * w <= (1000 * g) * w && -((5 * g) * w) <= j * w <= (5 * g) * w)
        by (nonlinear_arith)
        requires
            -(1000 * g) <= l <= 1000 * g,
            -(5 * g) <= j <= 5 * g,
            w > 0,
    ;
    let n2 = g * w;
    assert((2500 * g) * w == 2500 * n2 && (8 * g) * w == 8 * n2 && (1000 * g) * w == 1000 * n2 && (5 * g)
        * w == 5 * n2) by (nonlinear_arith)
        requires
            n2 == g * w,
    ;
    let f = 1000 * u + 99 * w;
    assert(close((b * 1099) * w, f * w, 16_500 * n2));
    assert(close(b * 1099, f, (20 * g) * 1099)) by (nonlinear_arith)
        requires
            close((b * 1099) * w, f * w, 16_500 * n2),
            n2 == g * w,
            w > 0,
            g > 0,
    {
        assert(16_500 * n2 == (16_500 * g) * w);
        assert(close(b * 1099, f, 16_500 * g));
    }
}

/// Linear light to display-encoded: up to 0.018 a straight line of slope 4.5, and
/// past it 1.099 times a power of the light, less 0.099.
pub proof fn law_code_of_a_light(v: Single, power: Single)
    requires
        within(v, 0, 64),
        within(power, 0, 16),
    ensures
        1000 * units_of(v) < 18 * whole() - 1000 * grain() ==> {
            &&& adjustments::oetf(v) matches Curve::Known(r)
            &&& agrees(units_of(r), 9 * units_of(v), 2)
        },
        1000 * units_of(v) > 18 * whole() + 1000 * grain() ==> adjustments::oetf(v) == Curve::PowerOf(v),
        agrees(
            units_of(adjustments::oetf_power(power)),
            1099 * units_of(power) - 99 * whole(),
            1000,
        ),
{
    let (w, g, q) = (whole(), grain(), quarter());
    lemma_measures();
    lemma_decimals();
    bounded::lemma_curve_constants();
    let limit = Single { bits: 0x3c93_74bc };
    lemma_order(v, limit);
    let slope = Single { bits: 0x4090_0000 };
    let u = units_of(v);
    if 1000 * u < 18 * w - 1000 * g {
        assert(within(v, 0, 1));
        lemma_scaled(v, slope, 0, 1, 18, 0, 5, 5);
        let r = units_of(v.times(slope));
        assert(close(r * 2, 9 * u, (6 * g) * 2)) by (nonlinear_arith)
            requires
                close(r * w, u * (18 * q), ((5 + 1) * g) * w),
                w == 4 * q,
                q > 0,
        ;
        amounts::lemma_agrees(r, 9 * u, 2, 6);
    }
    let (off, top) = (Single { bits: 0x3dca_c083 }, Single { bits: 0x3f8c_ac08 });
    assert(within(top, -5, 5) && within(power, -16, 16)) by {
        assert(-5 * q <= 4 * q && -16 * q <= 0 * q) by (nonlinear_arith)
            requires
                q > 0,
        ;
    }
    lemma_multiplied(top, power, 5, 16, 20);
    let x = top.times(power);
    lemma_minus(x, off, -21, 21, 21);
    let (r, p, m) = (units_of(x.minus(off)), units_of(power), units_of(x));
    let (n, o) = (units_of(top), units_of(off));
    assert(close(1000 * m, 1099 * p, (29_000 * g))) by (nonlinear_arith)
        requires
            close(m * w, n * p, ((20 + 1) * g) * w),
            close(1000 * n, 1099 * w, 2000 * g),
            0 <= p <= 16 * q,
            w == 4 * q,
            w > 0,
            g > 0,
    {
        let k = 1000 * n - 1099 * w;
        assert(1000 * (n * p) == 1099 * p * w + k * p);
        assert(-((2000 * g) * p) <= k * p <= (2000 * g) * p);
        assert((2000 * g) * p <= (2000 * g) * (4 * w));
        assert(1000 * (m * w) - 1099 * p * w == (1000 * m - 1099 * p) * w);
        assert(-((29_000 * g) * w) <= (1000 * m - 1099 * p) * w <= (29_000 * g) * w);
    }
    assert(close(r * 1000, 1099 * p - 99 * w, (51 * g) * 1000));
    amounts::lemma_agrees(r, 1099 * p - 99 * w, 1000, 51);
}

/// Nine times the light of a channel: twice its code on the straight part, and
/// there nothing below zero; else what the power gives.
pub open spec fn light_in_ninths(ch: int, power: int) -> int {
    if 1000 * ch < 80 * whole() {
        2 * (if ch < 0 { 0 } else { ch })
    } else {
        9 * power
    }
}

/// Exposure multiplies light: a channel comes out as the code of its light times the
/// gain. Left out are the channels next to where the straight part ends, on which
/// rounding decides.
pub proof fn law_exposure_multiplies_light(ch: Single, gain: Single, powers: Powers)
    requires
        within(ch, -400, 4),
        1000 * units_of(ch) < 80 * whole() || 1000 * units_of(ch) > 82 * whole(),
        within(gain, 0, 16),
        within(powers.light, 0, 16),
        within(powers.code, 0, 16),
    ensures
        ({
            let lit = light_in_ninths(units_of(ch), units_of(powers.light)) * units_of(gain);
            let r = units_of(adjustments::exposed(ch, gain, powers));
            &&& 1000 * lit < 17 * (9 * (whole() * whole())) ==> agrees(r, lit, 2 * whole())
            &&& 1000 * lit > 19 * (9 * (whole() * whole())) ==> {
                &&& agrees(r, 1099 * units_of(powers.code) - 99 * whole(), 1000)
                &&& adjustments::code(ch, gain, powers.light) matches Curve::PowerOf(b)
                &&& agrees(units_of(b), lit, 9 * whole())
            }
        }),
{
    let (w, g, q) = (whole(), grain(), quarter());
    lemma_measures();
    lemma_ends();
    lemma_decimals();
    lemma_order(ch, Single::zero());
    let z = ch.greater_of(Single::zero());
    assert(within(z, 0, 4));
    law_light_of_a_code(z);
    lemma_line(z);
    let l = adjustments::resolved(adjustments::light(ch), powers.light);
    let (ul, ug) = (units_of(l), units_of(gain));
    let nine = light_in_ninths(units_of(ch), units_of(powers.light));
    lemma_order(z, Single { bits: 0x3da5_e354 });
    assert(within(l, 0, 16) && close(9 * ul, nine, 45 * g));
    lemma_scaled(l, gain, 0, 16, 16, 0, 64, 64);
    let v = l.times(gain);
    law_code_of_a_light(v, powers.code);
    let uv = units_of(v);
    let lit = nine * ug;
    assert(close(uv * (9 * w), lit, (85 * g) * (9 * w))) by (nonlinear_arith)
        requires
            close(uv * w, ul * ug, ((64 + 1) * g) * w),
            close(9 * ul, nine, 45 * g),
            0 <= ug <= 16 * q,
            w == 4 * q,
            w > 0,
            g > 0,
            lit == nine * ug,
    {
        let k = 9 * ul - nine;
        assert(9 * (ul * ug) == lit + k * ug);
        assert(-((45 * g) * ug) <= k * ug <= (45 * g) * ug);
        assert((45 * g) * ug <= (45 * g) * (4 * w));
    }
    amounts::lemma_agrees(uv, lit, 9 * w, 85);
    if 1000 * lit < 17 * (9 * (w * w)) {
        assert(1000 * uv < 18 * w - 1000 * g) by (nonlinear_arith)
            requires
                close(uv * (9 * w), lit, (85 * g) * (9 * w)),
                1000 * lit < 17 * (9 * (w * w)),
                w == 0x400_0000 * g,
                g > 0,
        {
            assert((1000 * uv) * (9 * w) < (17 * w) * (9 * w) + (85_000 * g) * (9 * w));
            assert((1000 * uv - 17 * w - 85_000 * g) * (9 * w) < 0);
        }
        let r = units_of(adjustments::exposed(ch, gain, powers));
        assert(within(v, 0, 1));
        bounded::lemma_curve_constants();
        lemma_scaled(v, Single { bits: 0x4090_0000 }, 0, 1, 18, 0, 5, 5);
        assert(adjustments::exposed(ch, gain, powers) == v.times(Single { bits: 0x4090_0000 }));
        assert(close(r * (2 * w), lit, (400 * g) * (2 * w))) by (nonlinear_arith)
            requires
                close(r * w, uv * (18 * q), ((5 + 1) * g) * w),
                close(uv * (9 * w), lit, (85 * g) * (9 * w)),
                w == 4 * q,
                q > 0,
                g > 0,
        {
            assert((uv * (18 * q)) * 2 == uv * (9 * w));
        }
        amounts::lemma_agrees(r, lit, 2 * w, 400);
    }
    if 1000 * lit > 19 * (9 * (w * w)) {
        assert(1000 * uv > 18 * w + 1000 * g) by (nonlinear_arith)
            requires
                close(uv * (9 * w), lit, (85 * g) * (9 * w)),
                1000 * lit > 19 * (9 * (w * w)),
                w == 0x400_0000 * g,
                g > 0,
        {
            assert((1000 * uv) * (9 * w) > (19 * w) * (9 * w) - (85_000 * g) * (9 * w));
            assert((1000 * uv - 19 * w + 85_000 * g) * (9 * w) > 0);
        }
    }
}

/// What is left in the end is the channel, held between 0 and 1, times the largest
/// pixel value, to within 2^-23 of it.
pub proof fn law_result_is_the_color_on_its_scale(v: Single, max_pixel_value: Single)
    requires
        laws::is_finite(v),
        Single::one().at_most(max_pixel_value),
        laws::is_finite(max_pixel_value),
    ensures
        ({
            let r = adjustments::finished(v, max_pixel_value);
            let m = units_of(max_pixel_value);
            &&& laws::is_finite(r)
            &&& close(
                units_of(r) * whole(),
                held(units_of(v), 0, whole()) * m,
                (8 * grain()) * m,
            )
        }),
{
    let (zero, one) = (Single::zero(), Single::one());
    let c = v.clamped(zero, one);
    lemma_measures();
    lemma_clamp(v);
    lemma_ends();
    bounded::lemma_clamp_any(v);
    lemma_order(zero, c);
    lemma_order(one, max_pixel_value);
    reveal(units_of);
    identity::lemma_sizes();
    lemma2_to64();
    lemma_pow2_adds(2, 123);
    lemma_unsigned(c);
    lemma_unsigned(max_pixel_value);
    if plain(c) {
        scale::lemma_on_scale(c, max_pixel_value);
        let r = c.times(max_pixel_value);
        lemma_order(zero, max_pixel_value);
        color_laws::law_result_in_range(v, max_pixel_value);
        assert(units_of(r) == amount(r));
        assert(2 * (slip() * amount(max_pixel_value)) == (8 * grain()) * amount(max_pixel_value))
            by (nonlinear_arith)
            requires
                slip() == 4 * grain(),
        ;
    } else {
        laws::law_times_zero(max_pixel_value, c);
        assert(units_of(c.times(max_pixel_value)) == 0);
        assert(0 * units_of(max_pixel_value) == 0);
        assert((8 * grain()) * units_of(max_pixel_value) >= 0) by (nonlinear_arith)
            requires
                grain() > 0,
                units_of(max_pixel_value) >= 0,
        ;
    }
}

/// A value no less than zero has no sign, unless it is zero.
proof fn lemma_unsigned(x: Single)
    requires
        laws::is_finite(x),
        units_of(x) >= 0,
    ensures
        plain(x) || x.number().index == 0,
        plain(x) ==> units_of(x) == amount(x),
        x.number().index == 0 ==> units_of(x) == 0,
{
    reveal(units_of);
    let k = x.number().index as nat;
    if k > 0 {
        crate::ieee::grid::lemma_units_increase(crate::ieee::grid::Format::Single, 0, k);
    }
}

/// The larger of a size and one.
proof fn lemma_at_least_one(x: Single)
    requires
        laws::is_finite(x),
        units_of(x) >= whole(),
    ensures
        x.greater_of(Single::one()) == x,
{
    lemma_ends();
    lemma_order(x, Single::one());
}

/// A place along a side, as a fraction of the side less one half.
proof fn lemma_side(x: Single, side: Single)
    requires
        laws::is_finite(x),
        laws::is_finite(side),
        0 <= units_of(x) <= units_of(side),
        units_of(side) >= whole(),
    ensures
        ({
            let r = x.over(side).minus(Single { bits: 0x3f00_0000 });
            &&& within(r, -2, 2)
            &&& close(
                units_of(r) * (2 * units_of(side)),
                (2 * units_of(x) - units_of(side)) * whole(),
                (7 * grain()) * (2 * units_of(side)),
            )
        }),
{
    let (w, g, q) = (whole(), grain(), quarter());
    let half = Single { bits: 0x3f00_0000 };
    lemma_measures();
    bounded::lemma_fractions();
    assert(laws::is_finite(half)) by {
        assert(half.number().index < 0x7f80_0000);
    }
    let (u, s) = (units_of(x), units_of(side));
    assert((0 * q) * s <= u * w <= (4 * q) * s) by (nonlinear_arith)
        requires
            0 <= u <= s,
            w == 4 * q,
            q > 0,
    ;
    lemma_over(x, side, 0, 4, 4);
    let a = x.over(side);
    lemma_minus(a, half, -2, 2, 2);
    let (m, r) = (units_of(a), units_of(a.minus(half)));
    assert(close(r * (2 * s), (2 * u - s) * w, (7 * g) * (2 * s))) by (nonlinear_arith)
        requires
            close(m * s, u * w, ((4 + 1) * g) * s),
            close(r, m - 2 * q, 2 * g),
            w == 4 * q,
            s > 0,
    {
        let k = r - (m - 2 * q);
        assert(r * (2 * s) == 2 * (m * s) - s * w + k * (2 * s));
        assert(-((2 * g) * (2 * s)) <= k * (2 * s) <= (2 * g) * (2 * s));
    }
}

/// The legs of a pixel are counted in heights of the frame: how far it is right of
/// the middle, how far below the middle, and half the width of the frame.
pub proof fn law_legs_are_in_heights(x: Single, y: Single, width: Single, height: Single)
    requires
        laws::is_finite(x),
        laws::is_finite(y),
        laws::is_finite(width),
        laws::is_finite(height),
        units_of(width) >= whole(),
        units_of(height) >= whole(),
        units_of(width) <= 4 * units_of(height),
        0 <= units_of(x) <= units_of(width),
        0 <= units_of(y) <= units_of(height),
    ensures
        ({
            let legs = adjustments::legs((x, y), (width, height));
            let (w, h) = (units_of(width), units_of(height));
            &&& agrees(units_of(legs.dx), (2 * units_of(x) - w) * whole(), 2 * h)
            &&& agrees(units_of(legs.dy), (2 * units_of(y) - h) * whole(), 2 * h)
            &&& agrees(units_of(legs.half_width), w * whole(), 2 * h)
        }),
{
    let (w, g, q) = (whole(), grain(), quarter());
    let half = Single { bits: 0x3f00_0000 };
    lemma_measures();
    bounded::lemma_fractions();
    assert(laws::is_finite(half)) by {
        assert(half.number().index < 0x7f80_0000);
    }
    lemma_at_least_one(width);
    lemma_at_least_one(height);
    lemma_side(x, width);
    lemma_side(y, height);
    let (sw, sh) = (units_of(width), units_of(height));
    assert((0 * q) * sh <= sw * w <= (16 * q) * sh) by (nonlinear_arith)
        requires
            0 <= sw <= 4 * sh,
            w == 4 * q,
            q > 0,
    ;
    lemma_over(width, height, 0, 16, 16);
    let aspect = width.over(height);
    let a = x.over(width).minus(half);
    lemma_scaled(a, aspect, -2, 2, 16, -8, 8, 8);
    lemma_scaled(half, aspect, 0, 2, 16, 0, 8, 8);
    let legs = adjustments::legs((x, y), (width, height));
    let (ua, us, ux) = (units_of(a), units_of(aspect), units_of(x));
    let (dx, hw) = (units_of(legs.dx), units_of(legs.half_width));
    assert(close(hw * (2 * sh), sw * w, (40 * g) * (2 * sh))) by (nonlinear_arith)
        requires
            close(hw * w, (2 * q) * us, ((8 + 1) * g) * w),
            close(us * sh, sw * w, ((16 + 1) * g) * sh),
            w == 4 * q,
            q > 0,
            g > 0,
            sh > 0,
    {
        assert(close(2 * hw, us, 18 * g));
        let k = 2 * hw - us;
        assert(-((18 * g) * sh) <= k * sh <= (18 * g) * sh);
        assert(hw * (2 * sh) == us * sh + k * sh);
    }
    amounts::lemma_agrees(hw, sw * w, 2 * sh, 40);
    lemma_across(dx, ua, us, ux, sw, sh, w, g);
    amounts::lemma_agrees(dx, (2 * ux - sw) * w, 2 * sh, 60);
    amounts::lemma_agrees(units_of(legs.dy), (2 * units_of(y) - sh) * w, 2 * sh, 7);
}

proof fn lemma_across(dx: int, a: int, s: int, x: int, sw: int, sh: int, w: int, g: int)
    requires
        close(dx * w, a * s, (9 * g) * w),
        close(a * (2 * sw), (2 * x - sw) * w, (7 * g) * (2 * sw)),
        close(s * sh, sw * w, (17 * g) * sh),
        -w <= 2 * a <= w,
        0 < sw <= 4 * sh,
        sh > 0,
        w > 0,
        g > 0,
    ensures
        close(dx * (2 * sh), (2 * x - sw) * w, (60 * g) * (2 * sh)),
{
    let (i, j, k) = (dx * w - a * s, a * (2 * sw) - (2 * x - sw) * w, s * sh - sw * w);
    // Twice dx w h is twice a s h, which is a 2 w times the width.
    assert((dx * (2 * sh)) * w == (2 * a) * (s * sh) + 2 * (i * sh)) by (nonlinear_arith)
        requires
            i == dx * w - a * s,
    ;
    assert((2 * a) * (s * sh) == (a * (2 * sw)) * w + (2 * a) * k) by (nonlinear_arith)
        requires
            k == s * sh - sw * w,
    ;
    let n = (g * sh) * w;
    assert(-(9 * n) <= i * sh <= 9 * n) by (nonlinear_arith)
        requires
            -((9 * g) * w) <= i <= (9 * g) * w,
            sh > 0,
            n == (g * sh) * w,
    {
        assert(-(((9 * g) * w) * sh) <= i * sh <= ((9 * g) * w) * sh);
    }
    assert(-(17 * n) <= (2 * a) * k <= 17 * n) by (nonlinear_arith)
        requires
            -((17 * g) * sh) <= k <= (17 * g) * sh,
            -w <= 2 * a <= w,
            n == (g * sh) * w,
            g > 0,
            sh > 0,
    {
        assert(-(w * ((17 * g) * sh)) <= (2 * a) * k <= w * ((17 * g) * sh));
    }
    assert(-(56 * n) <= j * w <= 56 * n) by (nonlinear_arith)
        requires
            -((7 * g) * (2 * sw)) <= j <= (7 * g) * (2 * sw),
            0 < sw <= 4 * sh,
            n == (g * sh) * w,
            g > 0,
            w > 0,
    {
        assert((7 * g) * (2 * sw) <= (7 * g) * (8 * sh));
        assert(-((56 * g) * sh) <= j <= (56 * g) * sh);
        assert(-(((56 * g) * sh) * w) <= j * w <= ((56 * g) * sh) * w);
    }
    let f = (2 * x - sw) * w;
    assert((a * (2 * sw)) * w == f * w + j * w) by (nonlinear_arith)
        requires
            j == a * (2 * sw) - f,
    ;
    let d = dx * (2 * sh);
    assert(close(d * w, f * w, 91 * n));
    assert(close(d, f, (60 * g) * (2 * sh))) by (nonlinear_arith)
        requires
            close(d * w, f * w, 91 * n),
            n == (g * sh) * w,
            w > 0,
            g > 0,
            sh > 0,
    {
        assert(91 * n == ((91 * g) * sh) * w);
        assert(close(d, f, (91 * g) * sh));
        assert((91 * g) * sh <= (60 * g) * (2 * sh));
    }
}

} // verus!
