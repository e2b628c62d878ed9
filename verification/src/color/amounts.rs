//! What each stage makes of a color from 0 to 1, in exact arithmetic.
//!
//! Amounts run from -1 to 1, and the laws hold to within a hundred-thousandth.

use crate::color::adjustments;
use crate::color::agreement;
use crate::color::bounded;
use crate::color::drift::{grain, quarter, units_of, whole, within};
use crate::color::drift::{lemma_clamp, lemma_ends, lemma_measures, lemma_minus, lemma_order};
use crate::color::drift::{lemma_multiplied, lemma_over, lemma_plus, lemma_scaled};
use crate::color::lut::identity::close;
use crate::color::tones;
use crate::color::tones::held;
use crate::ieee::laws;
use crate::ieee::single::Single;
use vstd::arithmetic::power2::*;
use vstd::prelude::*;

verus! {

/// Every channel is from 0 to 1.
pub open spec fn is_color(c: [Single; 3]) -> bool {
    within(c[0], 0, 4) && within(c[1], 0, 4) && within(c[2], 0, 4)
}

/// `got` is `wanted` to within a hundred-thousandth, both counted in `scale`ths.
pub open spec fn agrees(got: int, wanted: int, scale: int) -> bool {
    -(whole() * scale) < 100_000 * (got * scale - wanted) < whole() * scale
}

/// A result within `k` grains of what is wanted, `k` well below a
/// hundred-thousandth.
pub(crate) proof fn lemma_agrees(got: int, wanted: int, scale: int, k: int)
    requires
        close(got * scale, wanted, (k * grain()) * scale),
        scale > 0,
        0 <= k <= 600,
    ensures
        agrees(got, wanted, scale),
{
    lemma_measures();
    let g = grain();
    let n = g * scale;
    assert((k * g) * scale == k * n) by (nonlinear_arith)
        requires
            n == g * scale,
    ;
    assert(whole() * scale == 0x400_0000 * n) by (nonlinear_arith)
        requires
            n == g * scale,
            whole() == 0x400_0000 * g,
    ;
    assert(n > 0) by (nonlinear_arith)
        requires
            n == g * scale,
            g > 0,
            scale > 0,
    ;
    assert(k * n <= 600 * n) by (nonlinear_arith)
        requires
            k <= 600,
            n > 0,
    ;
}

proof fn lemma_exact(got: int, wanted: int, scale: int)
    requires
        got * scale == wanted,
        scale > 0,
    ensures
        agrees(got, wanted, scale),
{
    assert((0 * grain()) * scale == 0) by (nonlinear_arith);
    lemma_agrees(got, wanted, scale, 0);
}

/// A rounded product, counted in wholes.
proof fn lemma_gained(x: Single, gain: Single)
    requires
        within(x, 0, 4),
        within(gain, 0, 8),
    ensures
        within(x.times(gain), 0, 8),
        close(
            units_of(x.times(gain)) * whole(),
            units_of(x) * units_of(gain),
            (9 * grain()) * whole(),
        ),
{
    lemma_scaled(x, gain, 0, 4, 8, 0, 8, 8);
}

/// One plus half an amount, to within four grains and a half.
proof fn lemma_half_gain(s: Single)
    requires
        within(s, -4, 4),
    ensures
        ({
            let gain = Single::one().plus(s.times(Single { bits: 0x3f00_0000 }));
            &&& within(gain, 2, 6)
            &&& close(2 * units_of(gain), 2 * whole() + units_of(s), 18 * grain())
        }),
{
    let half = Single { bits: 0x3f00_0000 };
    let (w, g, q) = (whole(), grain(), quarter());
    lemma_measures();
    lemma_ends();
    bounded::lemma_fractions();
    assert(laws::is_finite(half)) by {
        assert(half.number().index < 0x7f80_0000);
    }
    lemma_scaled(s, half, -4, 4, 2, -2, 2, 2);
    let p = s.times(half);
    let (u, v) = (units_of(p), units_of(s));
    assert(close(2 * u, v, 6 * g)) by (nonlinear_arith)
        requires
            close(u * w, v * (2 * q), ((2 + 1) * g) * w),
            w == 4 * q,
            w > 0,
    ;
    lemma_plus(Single::one(), p, 2, 6, 6);
}

/// Luminance multiplies by one plus half the amount.
pub proof fn law_luminance_is_a_gain(c: [Single; 3], s: Single, ch: int)
    requires
        is_color(c),
        within(s, -4, 4),
        0 <= ch < 3,
    ensures
        agrees(
            units_of(adjustments::with_luminance(c, s)[ch]),
            units_of(c[ch]) * (2 * whole() + units_of(s)),
            2 * whole(),
        ),
{
    let r = adjustments::with_luminance(c, s)[ch];
    let (w, g) = (whole(), grain());
    let x = units_of(c[ch]);
    lemma_measures();
    if adjustments::active(s) {
        let gain = Single::one().plus(s.times(Single { bits: 0x3f00_0000 }));
        lemma_half_gain(s);
        lemma_gained(c[ch], gain);
        assert(r == c[ch].times(gain));
        let (u, v) = (units_of(gain), 2 * w + units_of(s));
        let got = units_of(r);
        assert(close(got * (2 * w), x * v, (18 * g) * (2 * w))) by (nonlinear_arith)
            requires
                close(got * w, x * u, (9 * g) * w),
                close(2 * u, v, 18 * g),
                0 <= x <= w,
                g > 0,
        {
            assert(-(18 * g) * x <= (2 * u - v) * x <= (18 * g) * x);
            assert((18 * g) * x <= (18 * g) * w);
            assert(2 * (x * u) - x * v == (2 * u - v) * x);
        }
        lemma_agrees(got, x * v, 2 * w, 18);
    } else {
        lemma_inactive(s);
        assert(x * (2 * w) == units_of(r) * (2 * w));
        lemma_exact(x, x * (2 * w), 2 * w);
    }
}

proof fn lemma_inactive(s: Single)
    requires
        within(s, -4, 4),
        !adjustments::active(s),
    ensures
        units_of(s) == 0,
{
    lemma_ends();
    lemma_order(s, Single::zero());
    lemma_order(Single::zero(), s);
}

/// Contrast stretches what lies around one half by one plus the amount.
pub proof fn law_contrast_stretches(c: [Single; 3], s: Single, ch: int)
    requires
        is_color(c),
        within(s, -4, 4),
        0 <= ch < 3,
    ensures
        agrees(
            units_of(adjustments::with_contrast(c, s)[ch]),
            (2 * units_of(c[ch]) - whole()) * (whole() + units_of(s)) + whole() * whole(),
            2 * whole(),
        ),
{
    let r = adjustments::with_contrast(c, s)[ch];
    let (w, g, q) = (whole(), grain(), quarter());
    let (x, a) = (units_of(c[ch]), units_of(s));
    lemma_measures();
    if adjustments::active(s) {
        let half = Single { bits: 0x3f00_0000 };
        lemma_ends();
        bounded::lemma_fractions();
        assert(laws::is_finite(half)) by {
            assert(half.number().index < 0x7f80_0000);
        }
        let gain = Single::one().plus(s);
        lemma_plus(Single::one(), s, 0, 8, 8);
        let d = c[ch].minus(half);
        lemma_minus(c[ch], half, -2, 2, 2);
        lemma_scaled(d, gain, -2, 2, 8, -4, 4, 4);
        let p = d.times(gain);
        lemma_plus(p, half, -2, 6, 6);
        assert(r == p.plus(half));
        let (u, e, v, got) = (units_of(gain), units_of(d), units_of(p), units_of(r));
        assert(0 <= u <= 2 * w);
        assert(close(v * w, (x - 2 * q) * (w + a), (13 * g) * w)) by (nonlinear_arith)
            requires
                close(v * w, e * u, (5 * g) * w),
                close(u, w + a, 8 * g),
                close(e, x - 2 * q, 2 * g),
                0 <= u <= 2 * w,
                w == 4 * q,
                0 <= x <= w,
                g > 0,
        {
            let (m, n) = (x - 2 * q, w + a);
            assert(e * u - m * n == (e - m) * u + m * (u - n));
            assert(-((2 * g) * u) <= (e - m) * u <= (2 * g) * u);
            assert((2 * g) * u <= (2 * g) * (2 * w));
            assert(-(2 * q) <= m <= 2 * q);
            assert(-((2 * q) * (8 * g)) <= m * (u - n) <= (2 * q) * (8 * g));
        }
        let wanted = (2 * x - w) * (w + a) + w * w;
        assert(close(got * (2 * w), wanted, (19 * g) * (2 * w))) by (nonlinear_arith)
            requires
                close(v * w, (x - 2 * q) * (w + a), (13 * g) * w),
                close(got, v + 2 * q, 6 * g),
                w == 4 * q,
                w > 0,
                wanted == (2 * x - w) * (w + a) + w * w,
        {
            let m = (x - 2 * q) * (w + a);
            assert(2 * m == (2 * x - w) * (w + a));
            assert((v + 2 * q) * (2 * w) == 2 * (v * w) + w * w);
            assert(-((6 * g) * (2 * w)) <= (got - (v + 2 * q)) * (2 * w) <= (6 * g) * (2 * w));
        }
        lemma_agrees(got, wanted, 2 * w, 19);
    } else {
        lemma_inactive(s);
        assert((2 * x - w) * (w + a) + w * w == x * (2 * w)) by (nonlinear_arith)
            requires
                a == 0,
        ;
        lemma_exact(x, x * (2 * w), 2 * w);
    }
}

/// 0.2, but for a fifth of a grain.
proof fn lemma_fifth()
    ensures
        ({
            let x = Single { bits: 0x3e4c_cccd };
            &&& within(x, 0, 1)
            &&& 5 * units_of(x) == whole() + grain()
        }),
{
    reveal(units_of);
    lemma_measures();
    lemma2_to64();
    let x = Single { bits: 0x3e4c_cccd };
    assert(x.number().index == 0x3e4c_cccd && !x.number().negative);
    assert(0x3e4c_cccdnat / 0x80_0000nat == 124 && 0x3e4c_cccdnat % 0x80_0000nat == 0x4c_cccd);
    let h = pow2(123) as int;
    assert((0x80_0000 + 0x4c_cccd) * h == 13421773 * h);
    assert(5 * (13421773 * h) == 0x400_0000 * h + h);
}

/// White balance shifts the channels: red and blue by a fifth of the temperature
/// apart, green down by a fifth of the tint and red and blue up by half of that.
pub proof fn law_balance_shifts(c: [Single; 3], t: Single, s: Single)
    requires
        is_color(c),
        within(t, -4, 4),
        within(s, -4, 4),
    ensures
        ({
            let r = adjustments::with_balance(c, t, s);
            &&& agrees(units_of(r[0]), 10 * units_of(c[0]) + 2 * units_of(t) + units_of(s), 10)
            &&& agrees(units_of(r[1]), 10 * units_of(c[1]) - 2 * units_of(s), 10)
            &&& agrees(units_of(r[2]), 10 * units_of(c[2]) - 2 * units_of(t) + units_of(s), 10)
        }),
{
    let r = adjustments::with_balance(c, t, s);
    let (w, g, q) = (whole(), grain(), quarter());
    lemma_measures();
    if adjustments::active(t) || adjustments::active(s) {
        let strength = Single { bits: 0x3e4c_cccd };
        let half = Single { bits: 0x3f00_0000 };
        lemma_fifth();
        bounded::lemma_tilts(t, s);
        lemma_tilt(t);
        lemma_tilt(s);
        let (a, b) = (t.times(strength), s.times(strength));
        let h = b.times(half);
        bounded::lemma_fractions();
        assert(laws::is_finite(half)) by {
            assert(half.number().index < 0x7f80_0000);
        }
        lemma_scaled(b, half, -1, 1, 2, -1, 1, 1);
        let (u, v, e) = (units_of(a), units_of(b), units_of(h));
        assert(close(2 * e, v, 4 * g)) by (nonlinear_arith)
            requires
                close(e * w, v * (2 * q), ((1 + 1) * g) * w),
                w == 4 * q,
                w > 0,
        ;
        lemma_plus(c[0], a, -1, 5, 5);
        lemma_plus(c[0].plus(a), h, -2, 6, 6);
        lemma_minus(c[1], b, -1, 5, 5);
        lemma_minus(c[2], a, -1, 5, 5);
        lemma_plus(c[2].minus(a), h, -2, 6, 6);
        assert(r[0] == c[0].plus(a).plus(h));
        assert(r[1] == c[1].minus(b));
        assert(r[2] == c[2].minus(a).plus(h));
        lemma_agrees(units_of(r[0]), 10 * units_of(c[0]) + 2 * units_of(t) + units_of(s), 10, 40);
        lemma_agrees(units_of(r[1]), 10 * units_of(c[1]) - 2 * units_of(s), 10, 40);
        lemma_agrees(units_of(r[2]), 10 * units_of(c[2]) - 2 * units_of(t) + units_of(s), 10, 40);
    } else {
        lemma_inactive(t);
        lemma_inactive(s);
        lemma_exact(units_of(r[0]), 10 * units_of(c[0]), 10);
        lemma_exact(units_of(r[1]), 10 * units_of(c[1]), 10);
        lemma_exact(units_of(r[2]), 10 * units_of(c[2]), 10);
    }
}

/// A fifth of an amount.
proof fn lemma_tilt(t: Single)
    requires
        within(t, -4, 4),
    ensures
        ({
            let a = t.times(Single { bits: 0x3e4c_cccd });
            &&& within(a, -1, 1)
            &&& close(5 * units_of(a), units_of(t), 11 * grain())
        }),
{
    let k = Single { bits: 0x3e4c_cccd };
    let (w, g) = (whole(), grain());
    lemma_measures();
    lemma_fifth();
    lemma_scaled(t, k, -4, 4, 1, -1, 1, 1);
    let (u, v, f) = (units_of(t.times(k)), units_of(t), units_of(k));
    assert(close(5 * u, v, 11 * g)) by (nonlinear_arith)
        requires
            close(u * w, v * f, ((1 + 1) * g) * w),
            5 * f == w + g,
            -w <= v <= w,
            w > 0,
            g > 0,
    {
        assert(5 * (v * f) == v * w + v * g);
        assert(-(w * g) <= v * g <= w * g);
    }
}

/// The luma of a color in ten-thousandths, by its decimal weights.
pub open spec fn weighed(c: [Single; 3]) -> int {
    2126 * units_of(c[0]) + 7152 * units_of(c[1]) + 722 * units_of(c[2])
}

/// The weights are the decimals, to within half a grain each.
proof fn lemma_decimals()
    ensures
        close(20_000 * units_of(Single { bits: 0x3e59_b3d0 }), 4252 * whole(), 10_000 * grain()),
        close(20_000 * units_of(Single { bits: 0x3f37_1759 }), 14304 * whole(), 10_000 * grain()),
        close(20_000 * units_of(Single { bits: 0x3d93_dd98 }), 1444 * whole(), 10_000 * grain()),
{
    reveal(units_of);
    lemma_measures();
    lemma2_to64();
    let (r, g, b) = (
        Single { bits: 0x3e59_b3d0 },
        Single { bits: 0x3f37_1759 },
        Single { bits: 0x3d93_dd98 },
    );
    assert(r.number().index == 0x3e59_b3d0 && !r.number().negative);
    assert(g.number().index == 0x3f37_1759 && !g.number().negative);
    assert(b.number().index == 0x3d93_dd98 && !b.number().negative);
    assert(0x3e59_b3d0nat / 0x80_0000nat == 124 && 0x3e59_b3d0nat % 0x80_0000nat == 0x59_b3d0);
    assert(0x3f37_1759nat / 0x80_0000nat == 126 && 0x3f37_1759nat % 0x80_0000nat == 0x37_1759);
    assert(0x3d93_dd98nat / 0x80_0000nat == 123 && 0x3d93_dd98nat % 0x80_0000nat == 0x13_dd98);
    let h = pow2(122) as int;
    lemma_pow2_unfold(123);
    lemma_pow2_unfold(124);
    lemma_pow2_unfold(125);
    assert((0x80_0000 + 0x59_b3d0) * (2 * h) == 28534688 * h) by (nonlinear_arith);
    assert((0x80_0000 + 0x37_1759) * (8 * h) == 95992520 * h) by (nonlinear_arith);
    assert((0x80_0000 + 0x13_dd98) * h == 9690520 * h);
    assert(whole() == 0x800_0000 * h);
    assert(h > 0) by {
        lemma_pow2_pos(122);
    }
}

/// The luma is the decimal mean, to within 27 grains.
proof fn lemma_luma_is_mean(c: [Single; 3])
    requires
        is_color(c),
    ensures
        within(adjustments::luma(c), -5, 5),
        close(10_000 * units_of(adjustments::luma(c)), weighed(c), (10_000 * 27) * grain()),
        0 <= weighed(c) <= 10_000 * whole(),
{
    let (w, g) = (whole(), grain());
    lemma_measures();
    lemma_decimals();
    bounded::lemma_luma(c, 4);
    let (x, y, z) = (units_of(c[0]), units_of(c[1]), units_of(c[2]));
    let r = units_of(Single { bits: adjustments::LUMA_RED });
    let m = units_of(Single { bits: adjustments::LUMA_GREEN });
    let b = units_of(Single { bits: adjustments::LUMA_BLUE });
    let mixed = x * r + y * m + z * b;
    assert(bounded::mixed(c) == mixed);
    lemma_part(x, r, 4252, w, g);
    lemma_part(y, m, 14304, w, g);
    lemma_part(z, b, 1444, w, g);
    let l = units_of(adjustments::luma(c));
    assert(close(20_000 * mixed, 2 * (weighed(c) * w), 30_000 * (g * w))) by (nonlinear_arith)
        requires
            mixed == x * r + y * m + z * b,
            close(20_000 * (x * r), (4252 * x) * w, 10_000 * (g * w)),
            close(20_000 * (y * m), (14304 * y) * w, 10_000 * (g * w)),
            close(20_000 * (z * b), (1444 * z) * w, 10_000 * (g * w)),
            weighed(c) == 2126 * x + 7152 * y + 722 * z,
    ;
    let v = weighed(c);
    assert(close(10_000 * l, v, (10_000 * 27) * g)) by (nonlinear_arith)
        requires
            close(20_000 * mixed, 2 * (v * w), 30_000 * (g * w)),
            close(2 * (l * w), 2 * mixed, (50 * g) * w),
            w > 0,
            g > 0,
    {
        let n = g * w;
        assert((50 * g) * w == 50 * n);
        assert(close(20_000 * (l * w), 2 * (v * w), 530_000 * n));
        assert(10_000 * (l * w) - v * w == (10_000 * l - v) * w);
        assert(265_000 * n == (265_000 * g) * w);
        assert(close((10_000 * l) * w, v * w, (265_000 * g) * w));
    }
}

proof fn lemma_part(x: int, r: int, k: int, w: int, g: int)
    requires
        0 <= x <= w,
        close(20_000 * r, k * w, 10_000 * g),
        g > 0,
    ensures
        close(20_000 * (x * r), (k * x) * w, 10_000 * (g * w)),
{
    let d = 20_000 * r - k * w;
    assert(-((10_000 * g) * w) <= x * d <= (10_000 * g) * w) by (nonlinear_arith)
        requires
            -(10_000 * g) <= d <= 10_000 * g,
            0 <= x <= w,
            g > 0,
    ;
    assert(x * d == 20_000 * (x * r) - (k * x) * w) by (nonlinear_arith)
        requires
            d == 20_000 * r - k * w,
    ;
    assert((10_000 * g) * w == 10_000 * (g * w)) by (nonlinear_arith);
}

/// A channel spread away from the luma: what is taken with the decimal mean in the
/// place of the rounded luma.
proof fn lemma_spread_out(c: [Single; 3], gain: Single, ch: int)
    requires
        is_color(c),
        within(gain, 0, 8),
        0 <= ch < 3,
    ensures
        ({
            let r = adjustments::spread(c[ch], adjustments::luma(c), gain);
            let k = units_of(gain) - whole();
            &&& within(r, -23, 23)
            &&& close(
                units_of(r) * (10_000 * whole()),
                10_000 * (units_of(c[ch]) * (whole() + k)) - weighed(c) * k,
                (87 * grain()) * (10_000 * whole()),
            )
        }),
{
    let l = adjustments::luma(c);
    let r = adjustments::spread(c[ch], l, gain);
    let (w, g) = (whole(), grain());
    lemma_measures();
    lemma_luma_is_mean(c);
    agreement::lemma_spread(c[ch], l, gain, 4);
    let (x, m, u, got, v) = (units_of(c[ch]), units_of(l), units_of(gain), units_of(r), weighed(c));
    let k = u - w;
    assert(-w <= k <= w);
    assert(m * w + (x - m) * u == x * (w + k) - m * k) by (nonlinear_arith)
        requires
            u == w + k,
    ;
    assert(close(10_000 * (m * k), v * k, (270_000 * g) * w)) by (nonlinear_arith)
        requires
            close(10_000 * m, v, 270_000 * g),
            -w <= k <= w,
            g > 0,
    {
        let d = 10_000 * m - v;
        assert(10_000 * (m * k) - v * k == d * k);
        assert(-((270_000 * g) * w) <= d * k <= (270_000 * g) * w);
    }
    assert(((13 * 4 + 8) * g) * w == (60 * g) * w);
    assert(got * (10_000 * w) == 10_000 * (got * w)) by (nonlinear_arith);
    assert((87 * g) * (10_000 * w) == 870_000 * (g * w)) by (nonlinear_arith);
    assert((60 * g) * w == 60 * (g * w) && (270_000 * g) * w == 270_000 * (g * w)) by (nonlinear_arith);
    lemma_spread_sum(got * w, x * (w + k), m * k, v * k, g * w);
}

proof fn lemma_spread_sum(got: int, p: int, m: int, v: int, n: int)
    requires
        close(got, p - m, 60 * n),
        close(10_000 * m, v, 270_000 * n),
    ensures
        close(10_000 * got, 10_000 * p - v, 870_000 * n),
{
}

/// Saturation spreads the channels away from the luma by one plus the amount.
pub proof fn law_saturation_spreads(c: [Single; 3], s: Single, ch: int)
    requires
        is_color(c),
        within(s, -4, 4),
        0 <= ch < 3,
    ensures
        agrees(
            units_of(adjustments::with_saturation(c, s)[ch]),
            10_000 * (units_of(c[ch]) * (whole() + units_of(s))) - weighed(c) * units_of(s),
            10_000 * whole(),
        ),
{
    let r = adjustments::with_saturation(c, s)[ch];
    let (w, g) = (whole(), grain());
    let (x, a, v) = (units_of(c[ch]), units_of(s), weighed(c));
    lemma_measures();
    let wanted = 10_000 * (x * (w + a)) - v * a;
    if adjustments::active(s) {
        let gain = Single::one().plus(s);
        lemma_ends();
        lemma_plus(Single::one(), s, 0, 8, 8);
        lemma_spread_out(c, gain, ch);
        lemma_luma_is_mean(c);
        let k = units_of(gain) - w;
        lemma_gain_moved(x, v, k, a, w, g, 8);
        let got = units_of(r);
        assert((87 * g) * (10_000 * w) + (16 * g) * (10_000 * w) == (103 * g) * (10_000 * w))
            by (nonlinear_arith);
        lemma_agrees(got, wanted, 10_000 * w, 103);
    } else {
        lemma_inactive(s);
        assert(wanted == x * (10_000 * w)) by (nonlinear_arith)
            requires
                a == 0,
                wanted == 10_000 * (x * (w + a)) - v * a,
        ;
        lemma_exact(x, wanted, 10_000 * w);
    }
}

/// A gain off by some grains.
proof fn lemma_gain_moved(x: int, v: int, k: int, a: int, w: int, g: int, e: int)
    requires
        0 <= x <= w,
        0 <= v <= 10_000 * w,
        close(k, a, e * g),
        g > 0,
        e >= 0,
    ensures
        close(
            10_000 * (x * (w + k)) - v * k,
            10_000 * (x * (w + a)) - v * a,
            ((2 * e) * g) * (10_000 * w),
        ),
{
    let d = k - a;
    assert(x * (w + k) - x * (w + a) == x * d && v * k - v * a == v * d) by (nonlinear_arith)
        requires
            d == k - a,
    ;
    assert(-((e * g) * w) <= x * d <= (e * g) * w) by (nonlinear_arith)
        requires
            0 <= x <= w,
            -(e * g) <= d <= e * g,
    ;
    assert(-((e * g) * (10_000 * w)) <= v * d <= (e * g) * (10_000 * w)) by (nonlinear_arith)
        requires
            0 <= v <= 10_000 * w,
            -(e * g) <= d <= e * g,
    ;
    assert((e * g) * (10_000 * w) == 10_000 * ((e * g) * w)) by (nonlinear_arith);
    assert(((2 * e) * g) * (10_000 * w) == 20_000 * ((e * g) * w)) by (nonlinear_arith);
}

/// The largest of three.
pub open spec fn largest(x: int, y: int, z: int) -> int {
    let m = if x < y {
        y
    } else {
        x
    };
    if m < z {
        z
    } else {
        m
    }
}

/// How far apart the channels of a color are.
pub open spec fn extent(c: [Single; 3]) -> int {
    let (x, y, z) = (units_of(c[0]), units_of(c[1]), units_of(c[2]));
    largest(x, y, z) + largest(-x, -y, -z)
}

proof fn lemma_extent(c: [Single; 3])
    requires
        is_color(c),
    ensures
        within(adjustments::vividness(c), 0, 4),
        close(units_of(adjustments::vividness(c)), extent(c), 4 * grain()),
        0 <= extent(c) <= whole(),
{
    lemma_measures();
    agreement::lemma_extremes(c, 4);
    let (most, least) = (agreement::most(c), agreement::least(c));
    assert(units_of(most) - units_of(least) == extent(c));
    let d = most.minus(least);
    lemma_minus(most, least, 0, 4, 4);
    lemma_clamp(d);
    assert(adjustments::vividness(c) == d.clamped(Single::zero(), Single::one()));
    bounded::lemma_clamp_any(d);
}

/// Vibrance spreads the channels away from the luma too, but by the amount times
/// what is left of one when the extent of the color is taken off.
pub proof fn law_vibrance_spreads(c: [Single; 3], s: Single, ch: int)
    requires
        is_color(c),
        within(s, -4, 4),
        0 <= ch < 3,
    ensures
        ({
            let push = units_of(s) * (whole() - extent(c));
            agrees(
                units_of(adjustments::with_vibrance(c, s)[ch]),
                10_000 * (units_of(c[ch]) * (whole() * whole() + push)) - weighed(c) * push,
                10_000 * (whole() * whole()),
            )
        }),
{
    let r = adjustments::with_vibrance(c, s)[ch];
    let (w, g) = (whole(), grain());
    let (x, a, v) = (units_of(c[ch]), units_of(s), weighed(c));
    lemma_measures();
    let push = a * (w - extent(c));
    let wanted = 10_000 * (x * (w * w + push)) - v * push;
    assert(w * w > 0) by (nonlinear_arith)
        requires
            w > 0,
    ;
    if adjustments::active(s) {
        let gain = adjustments::vibrance_gain(c, s);
        bounded::lemma_vibrance_gain(c, s, 4);
        agreement::lemma_gain_error(adjustments::vividness(c), s);
        lemma_extent(c);
        lemma_spread_out(c, gain, ch);
        lemma_luma_is_mean(c);
        let k = units_of(gain) - w;
        let e = units_of(adjustments::vividness(c));
        assert(close(k * w, push, (21 * g) * w)) by (nonlinear_arith)
            requires
                close((k + w) * w, w * w + a * (w - e), (17 * g) * w),
                close(e, extent(c), 4 * g),
                push == a * (w - extent(c)),
                -w <= a <= w,
                g > 0,
                w > 0,
        {
            let d = extent(c) - e;
            assert(a * (w - e) - push == a * d);
            assert(-(w * (4 * g)) <= a * d <= w * (4 * g));
        }
        let got = units_of(r);
        lemma_push(got, x, v, k, push, w, g);
        lemma_agrees(got, wanted, 10_000 * (w * w), 129);
    } else {
        lemma_inactive(s);
        assert(push == 0) by (nonlinear_arith)
            requires
                a == 0,
                push == a * (w - extent(c)),
        ;
        assert(wanted == x * (10_000 * (w * w))) by (nonlinear_arith)
            requires
                push == 0,
                wanted == 10_000 * (x * (w * w + push)) - v * push,
        ;
        lemma_exact(x, wanted, 10_000 * (w * w));
    }
}

proof fn lemma_push(got: int, x: int, v: int, k: int, push: int, w: int, g: int)
    requires
        close(got * (10_000 * w), 10_000 * (x * (w + k)) - v * k, (87 * g) * (10_000 * w)),
        close(k * w, push, (21 * g) * w),
        0 <= x <= w,
        0 <= v <= 10_000 * w,
        g > 0,
        w > 0,
    ensures
        close(
            got * (10_000 * (w * w)),
            10_000 * (x * (w * w + push)) - v * push,
            (129 * g) * (10_000 * (w * w)),
        ),
{
    let d = k * w - push;
    let n = (g * w) * w;
    let b = 10_000 * (x * (w + k)) - v * k;
    assert(close((got * (10_000 * w)) * w, b * w, 870_000 * n)) by (nonlinear_arith)
        requires
            close(got * (10_000 * w), b, (87 * g) * (10_000 * w)),
            w > 0,
            n == (g * w) * w,
    {
        assert(((87 * g) * (10_000 * w)) * w == 870_000 * n);
    }
    assert(b * w == 10_000 * (x * (w * w + k * w)) - v * (k * w)) by (nonlinear_arith)
        requires
            b == 10_000 * (x * (w + k)) - v * k,
    ;
    assert(-(21 * n) <= x * d <= 21 * n) by (nonlinear_arith)
        requires
            0 <= x <= w,
            -((21 * g) * w) <= d <= (21 * g) * w,
            n == (g * w) * w,
            g > 0,
            w > 0,
    {
        assert(-(w * ((21 * g) * w)) <= x * d <= w * ((21 * g) * w));
        assert(w * ((21 * g) * w) == 21 * n);
    }
    assert(-(210_000 * n) <= v * d <= 210_000 * n) by (nonlinear_arith)
        requires
            0 <= v <= 10_000 * w,
            -((21 * g) * w) <= d <= (21 * g) * w,
            n == (g * w) * w,
            g > 0,
            w > 0,
    {
        assert(-((10_000 * w) * ((21 * g) * w)) <= v * d <= (10_000 * w) * ((21 * g) * w));
        assert((10_000 * w) * ((21 * g) * w) == 210_000 * n);
    }
    assert(x * (w * w + k * w) == x * (w * w + push) + x * d && v * (k * w) == v * push + v * d)
        by (nonlinear_arith)
        requires
            d == k * w - push,
    ;
    assert(got * (10_000 * (w * w)) == (got * (10_000 * w)) * w) by (nonlinear_arith);
    assert((129 * g) * (10_000 * (w * w)) == 1_290_000 * n) by (nonlinear_arith)
        requires
            n == (g * w) * w,
    ;
}

/// The curve of a band, over the cube of the distance `d` between its edges: `u`
/// runs from 0 at the first edge to `d` at the second.
pub open spec fn smooth(u: int, d: int) -> int {
    (u * u) * (3 * d - 2 * u)
}

/// The curve at a place that is known to within `e` grains.
proof fn lemma_smooth(t: Single, u: int, d: int, e: int)
    requires
        within(t, 0, 4),
        0 <= u <= d,
        d > 0,
        e >= 0,
        close(units_of(t) * d, u * whole(), (e * grain()) * d),
    ensures
        ({
            let m = bounded::curve(t);
            let k = (3 * e + 99) / 2;
            &&& within(m, 0, 5)
            &&& units_of(m) <= whole() + 49 * grain()
            &&& close(
                units_of(m) * (d * (d * d)),
                whole() * smooth(u, d),
                (k * grain()) * (d * (d * d)),
            )
        }),
{
    let (w, g) = (whole(), grain());
    lemma_measures();
    bounded::lemma_curve(t);
    let (x, m) = (units_of(t), units_of(bounded::curve(t)));
    let p = w * d;
    let (y, z) = (x * d, u * w);
    assert(0 <= y <= p && 0 <= z <= p) by (nonlinear_arith)
        requires
            0 <= x <= w,
            0 <= u <= d,
            w > 0,
            y == x * d,
            z == u * w,
            p == w * d,
    ;
    agreement::lemma_cubes(y, z, p, (e * g) * d);
    let (cx, cu) = ((x * x) * (3 * w - 2 * x), smooth(u, d));
    let (d3, w2) = (d * (d * d), w * w);
    assert(d3 > 0) by (nonlinear_arith)
        requires
            d > 0,
            d3 == d * (d * d),
    ;
    assert((y * y) * (3 * p - 2 * y) == cx * d3) by (nonlinear_arith)
        requires
            y == x * d,
            p == w * d,
            cx == (x * x) * (3 * w - 2 * x),
            d3 == d * (d * d),
    {
        assert(y * y == (x * x) * (d * d));
        assert(3 * p - 2 * y == (3 * w - 2 * x) * d);
        let (a, b) = (x * x, 3 * w - 2 * x);
        assert((a * (d * d)) * (b * d) == (a * b) * (d * (d * d)));
    }
    assert((z * z) * (3 * p - 2 * z) == (w * cu) * w2) by (nonlinear_arith)
        requires
            z == u * w,
            p == w * d,
            cu == (u * u) * (3 * d - 2 * u),
            w2 == w * w,
    {
        assert(z * z == (u * u) * (w * w));
        assert(3 * p - 2 * z == (3 * d - 2 * u) * w);
        let (a, b) = (u * u, 3 * d - 2 * u);
        assert((a * (w * w)) * (b * w) == (w * (a * b)) * (w * w));
    }
    let n = (g * d3) * w2;
    assert(((e * g) * d) * (p * p) == e * n) by (nonlinear_arith)
        requires
            p == w * d,
            n == (g * d3) * w2,
            d3 == d * (d * d),
            w2 == w * w,
    {
        assert(p * p == (w * w) * (d * d));
        assert(((e * g) * d) * ((w * w) * (d * d)) == e * ((g * (d * (d * d))) * (w * w)));
    }
    assert(close((m * d3) * w2, cx * d3, 49 * n)) by (nonlinear_arith)
        requires
            close(m * w2, cx, (49 * g) * w2),
            n == (g * d3) * w2,
            d3 > 0,
    {
        assert((m * w2) * d3 == (m * d3) * w2);
        assert(((49 * g) * w2) * d3 == 49 * n);
    }
    let k = (3 * e + 99) / 2;
    assert(2 * k >= 3 * e + 98);
    assert(n > 0) by (nonlinear_arith)
        requires
            g > 0,
            d3 > 0,
            w > 0,
            w2 == w * w,
            n == (g * d3) * w2,
    ;
    assert(close((m * d3) * w2, (w * cu) * w2, k * n)) by {
        assert((3 * e) * n + 98 * n <= 2 * (k * n)) by (nonlinear_arith)
            requires
                2 * k >= 3 * e + 98,
                n > 0,
        ;
        assert(3 * (e * n) == (3 * e) * n) by (nonlinear_arith);
    }
    assert(close(m * d3, w * cu, (k * g) * d3)) by (nonlinear_arith)
        requires
            close((m * d3) * w2, (w * cu) * w2, k * n),
            n == (g * d3) * w2,
            w2 == w * w,
            w > 0,
    {
        assert(k * n == ((k * g) * d3) * w2);
        assert(w2 > 0);
    }
}

/// Where the luma of a color stands in a band between `a` and `b` quarters, in
/// ten-thousandths.
pub open spec fn depth(c: [Single; 3], a: int, b: int) -> int {
    held(weighed(c) - a * (2500 * whole()), 0, (b - a) * (2500 * whole()))
}

/// The place of a color in a band, and what it stands for.
proof fn lemma_depth(c: [Single; 3], from: Single, to: Single, a: int, b: int)
    requires
        is_color(c),
        bounded::band_edges(from, to, a, b),
    ensures
        ({
            let t = tones::place(from, to, adjustments::luma(c));
            let d = (b - a) * (2500 * whole());
            &&& within(t, 0, 4)
            &&& 0 <= depth(c, a, b) <= d
            &&& d > 0
            &&& close(units_of(t) * d, depth(c, a, b) * whole(), (117 * grain()) * d)
        }),
{
    let (w, g, q) = (whole(), grain(), quarter());
    let l = adjustments::luma(c);
    let t = tones::place(from, to, l);
    lemma_measures();
    lemma_luma_is_mean(c);
    assert(within(l, -12, 12));
    tones::lemma_place(from, to, a, b, l);
    let (x, m, v) = (units_of(t), units_of(l), weighed(c));
    let s = b - a;
    let d = s * (2500 * w);
    let y = held(m - a * q, 0, s * q);
    let z = depth(c, a, b);
    assert(d == 10_000 * (s * q) && a * (2500 * w) == 10_000 * (a * q)) by (nonlinear_arith)
        requires
            d == s * (2500 * w),
            w == 4 * q,
    ;
    assert(s * q > 0) by (nonlinear_arith)
        requires
            s > 0,
            q > 0,
    ;
    assert(close(10_000 * y, z, 270_000 * g));
    // From the place times the number of quarters to the place times the distance.
    assert(x * d == (x * s) * (2500 * w)) by (nonlinear_arith)
        requires
            d == s * (2500 * w),
    ;
    assert(close((x * s) * (2500 * w), (4 * y) * (2500 * w), ((9 * s) * g) * (2500 * w))) by (nonlinear_arith)
        requires
            close(x * s, 4 * y, (9 * s) * g),
            w > 0,
    ;
    assert((4 * y) * (2500 * w) == (10_000 * y) * w) by (nonlinear_arith);
    assert(close((10_000 * y) * w, z * w, (270_000 * g) * w)) by (nonlinear_arith)
        requires
            close(10_000 * y, z, 270_000 * g),
            w > 0,
    ;
    assert(((9 * s) * g) * (2500 * w) == (9 * g) * d && (270_000 * g) * w <= (108 * g) * d) by (nonlinear_arith)
        requires
            d == s * (2500 * w),
            s >= 1,
            g > 0,
            w > 0,
    {
        assert((108 * g) * (s * (2500 * w)) == s * ((270_000 * g) * w));
    }
    assert((9 * g) * d + (108 * g) * d == (117 * g) * d) by (nonlinear_arith);
}

/// What a band makes of a channel: it moves a channel toward white where the amount is positive
/// and toward black where it is not, by half the amount times its mask. The mask
/// follows the luma of the color: it is the smooth curve between the edges, and for
/// the dark bands what that leaves of one.
pub open spec fn in_band(c: [Single; 3], ch: int, s: int, a: int, b: int, dark: bool) -> int {
    let d = (b - a) * (2500 * whole());
    let cubed = d * (d * d);
    let curve = smooth(depth(c, a, b), d);
    let mask = if dark {
        cubed - curve
    } else {
        curve
    };
    let x = units_of(c[ch]);
    let push = if s > 0 {
        (whole() - x) * s
    } else {
        x * s
    };
    x * (2 * whole() * cubed) + push * mask
}

proof fn lemma_mask(ramp: Single, dark: bool, curve: int, cubed: int)
    requires
        within(ramp, 0, 5),
        units_of(ramp) <= whole() + 49 * grain(),
        close(units_of(ramp) * cubed, whole() * curve, (225 * grain()) * cubed),
        cubed > 0,
    ensures
        ({
            let mask = if dark {
                Single::one().minus(ramp)
            } else {
                ramp
            };
            let m = if dark {
                cubed - curve
            } else {
                curve
            };
            &&& within(mask, -1, 5)
            &&& -(53 * grain()) <= units_of(mask) <= whole() + 53 * grain()
            &&& close(units_of(mask) * cubed, whole() * m, (230 * grain()) * cubed)
        }),
{
    let (w, g) = (whole(), grain());
    lemma_measures();
    lemma_ends();
    let n = g * cubed;
    let r = units_of(ramp);
    assert(n > 0) by (nonlinear_arith)
        requires
            n == g * cubed,
            g > 0,
            cubed > 0,
    ;
    assert((225 * g) * cubed == 225 * n && (230 * g) * cubed == 230 * n) by (nonlinear_arith)
        requires
            n == g * cubed,
    ;
    if dark {
        lemma_minus(Single::one(), ramp, -1, 4, 4);
        let m = units_of(Single::one().minus(ramp));
        assert(close(m * cubed, (w - r) * cubed, 4 * n)) by (nonlinear_arith)
            requires
                close(m, w - r, 4 * g),
                n == g * cubed,
                cubed > 0,
        ;
        assert((w - r) * cubed == w * cubed - r * cubed && w * (cubed - curve) == w * cubed - w * curve)
            by (nonlinear_arith);
        // A ramp past one is hardly past it.
        assert(-(53 * g) <= m <= w + 53 * g);
    }
}

/// A tonal band, exactly.
proof fn lemma_band(c: [Single; 3], s: Single, from: Single, to: Single, a: int, b: int, dark: bool, ch: int)
    requires
        is_color(c),
        within(s, -4, 4),
        bounded::band_edges(from, to, a, b),
        0 <= ch < 3,
    ensures
        ({
            let d = (b - a) * (2500 * whole());
            agrees(
                units_of(adjustments::with_band(c, s, from, to, dark)[ch]),
                in_band(c, ch, units_of(s), a, b, dark),
                2 * whole() * (d * (d * d)),
            )
        }),
{
    let r = adjustments::with_band(c, s, from, to, dark)[ch];
    let (w, g, q) = (whole(), grain(), quarter());
    lemma_measures();
    lemma_ends();
    lemma_depth(c, from, to, a, b);
    let d = (b - a) * (2500 * w);
    let cubed = d * (d * d);
    assert(cubed > 0) by (nonlinear_arith)
        requires
            d > 0,
            cubed == d * (d * d),
    ;
    let curve = smooth(depth(c, a, b), d);
    let scale = 2 * w * cubed;
    assert(scale > 0) by (nonlinear_arith)
        requires
            w > 0,
            cubed > 0,
            scale == 2 * w * cubed,
    ;
    let x = units_of(c[ch]);
    let wanted = in_band(c, ch, units_of(s), a, b, dark);
    if adjustments::active(s) {
        let t = tones::place(from, to, adjustments::luma(c));
        lemma_smooth(t, depth(c, a, b), d, 117);
        let ramp = bounded::curve(t);
        assert(ramp == adjustments::smoothstep(from, to, adjustments::luma(c)));
        lemma_mask(ramp, dark, curve, cubed);
        let mask = if dark {
            Single::one().minus(ramp)
        } else {
            ramp
        };
        let m = if dark {
            cubed - curve
        } else {
            curve
        };
        bounded::lemma_weight(mask, s);
        bounded::lemma_magnitude(s);
        let h = s.magnitude().times(mask).times(Single { bits: adjustments::TONAL_STRENGTH });
        lemma_order(Single::zero(), s);
        let target = if Single::zero().less(s) {
            Single::one()
        } else {
            Single::zero()
        };
        assert(tones::lies(c[ch], 0));
        tones::lemma_moved(c[ch], target, h, 0);
        assert(r == adjustments::toward(c[ch], target, h));
        let sa = units_of(s.magnitude());
        let tx = units_of(target) - x;
        let push = if units_of(s) > 0 {
            (w - x) * units_of(s)
        } else {
            x * units_of(s)
        };
        assert(push == tx * sa) by {
            if units_of(s) <= 0 {
                assert(tx == -x && sa == -units_of(s));
                assert((-x) * (-units_of(s)) == x * units_of(s)) by (nonlinear_arith);
            }
        }
        let wt = units_of(s.magnitude().times(mask));
        lemma_pulled(
            units_of(r),
            x,
            tx,
            units_of(h),
            wt,
            sa,
            units_of(mask),
            m,
            cubed,
            w,
            g,
        );
        assert(x * scale + push * m == wanted);
        lemma_agrees(units_of(r), wanted, scale, 150);
    } else {
        lemma_inactive(s);
        assert(wanted == x * scale) by {
            assert(x * 0 == 0);
            let m = if dark {
                cubed - curve
            } else {
                curve
            };
            assert(0 * m == 0) by (nonlinear_arith);
        }
        lemma_exact(x, wanted, scale);
    }
}

proof fn lemma_pulled(
    got: int,
    x: int,
    tx: int,
    h: int,
    wt: int,
    sa: int,
    mask: int,
    m: int,
    cubed: int,
    w: int,
    g: int,
)
    requires
        close(got * w, x * w + tx * h, (28 * g) * w),
        close(2 * h, wt, 8 * g),
        close(wt * w, sa * mask, (6 * g) * w),
        close(mask * cubed, w * m, (230 * g) * cubed),
        -w <= tx <= w,
        0 <= sa <= w,
        cubed > 0,
        w > 0,
        g > 0,
    ensures
        close(got * (2 * w * cubed), x * (2 * w * cubed) + (tx * sa) * m, (150 * g) * (2 * w * cubed)),
{
    let e = 2 * h * w - sa * mask;
    assert(-((14 * g) * w) <= e <= (14 * g) * w) by (nonlinear_arith)
        requires
            close(2 * h, wt, 8 * g),
            close(wt * w, sa * mask, (6 * g) * w),
            w > 0,
            e == 2 * h * w - sa * mask,
    {
        assert(-((8 * g) * w) <= (2 * h - wt) * w <= (8 * g) * w);
        assert((2 * h - wt) * w == 2 * h * w - wt * w);
    }
    // Twice over, counted in wholes.
    let n = (g * w) * w;
    let p = tx * sa;
    assert(close(2 * (got * w) * w, 2 * (x * w) * w + p * mask, 70 * n)) by (nonlinear_arith)
        requires
            close(got * w, x * w + tx * h, (28 * g) * w),
            -((14 * g) * w) <= e <= (14 * g) * w,
            e == 2 * h * w - sa * mask,
            -w <= tx <= w,
            n == (g * w) * w,
            p == tx * sa,
            w > 0,
            g > 0,
    {
        let k = got * w - (x * w + tx * h);
        assert(-(56 * n) <= 2 * k * w <= 56 * n) by {
            assert(-(((28 * g) * w) * w) <= k * w <= ((28 * g) * w) * w);
        }
        assert(2 * (got * w) * w == 2 * (x * w) * w + tx * (2 * h * w) + 2 * k * w);
        assert(tx * (2 * h * w) == p * mask + tx * e);
        assert(-(w * ((14 * g) * w)) <= tx * e <= w * ((14 * g) * w));
    }
    assert(-(w * w) <= p <= w * w) by (nonlinear_arith)
        requires
            p == tx * sa,
            -w <= tx <= w,
            0 <= sa <= w,
    ;
    let o = n * cubed;
    assert(close(p * (mask * cubed), p * (w * m), 230 * o)) by (nonlinear_arith)
        requires
            close(mask * cubed, w * m, (230 * g) * cubed),
            -(w * w) <= p <= w * w,
            o == ((g * w) * w) * cubed,
            g > 0,
            cubed > 0,
    {
        let k = mask * cubed - w * m;
        assert(-((w * w) * ((230 * g) * cubed)) <= p * k <= (w * w) * ((230 * g) * cubed));
        assert((w * w) * ((230 * g) * cubed) == 230 * o);
    }
    let scale = 2 * w * cubed;
    let (y, z) = (2 * (got * w) * w, 2 * (x * w) * w);
    assert((got * scale) * w == y * cubed) by (nonlinear_arith)
        requires
            scale == 2 * w * cubed,
            y == 2 * (got * w) * w,
    ;
    assert((x * scale + p * m) * w == z * cubed + p * (w * m)) by (nonlinear_arith)
        requires
            scale == 2 * w * cubed,
            z == 2 * (x * w) * w,
    ;
    assert(close(y * cubed, z * cubed + p * (mask * cubed), 70 * o)) by (nonlinear_arith)
        requires
            close(y, z + p * mask, 70 * n),
            o == n * cubed,
            cubed > 0,
    {
        let k = y - (z + p * mask);
        assert(-((70 * n) * cubed) <= k * cubed <= (70 * n) * cubed);
        assert(k * cubed == y * cubed - z * cubed - (p * mask) * cubed);
        assert((p * mask) * cubed == p * (mask * cubed));
        assert((70 * n) * cubed == 70 * o);
    }
    assert(close((got * scale) * w, (x * scale + p * m) * w, 300 * o));
    assert(close(got * scale, x * scale + p * m, (150 * g) * scale)) by (nonlinear_arith)
        requires
            close((got * scale) * w, (x * scale + p * m) * w, 300 * o),
            o == ((g * w) * w) * cubed,
            scale == 2 * w * cubed,
            w > 0,
    {
        assert(300 * o == ((150 * g) * scale) * w);
    }
}

/// Blacks, shadows, highlights and whites move a color as their bands say: blacks
/// below a quarter and shadows below a half, the more the darker; highlights above
/// a half and whites above three quarters, the more the brighter.
pub proof fn law_bands_move(c: [Single; 3], s: Single, ch: int)
    requires
        is_color(c),
        within(s, -4, 4),
        0 <= ch < 3,
    ensures
        ({
            let (zero, quart) = (Single { bits: 0 }, Single { bits: 0x3e80_0000 });
            let (half, three) = (Single { bits: 0x3f00_0000 }, Single { bits: 0x3f40_0000 });
            let one = Single { bits: 0x3f80_0000 };
            let a = units_of(s);
            let (d, e) = (2500 * whole(), 5000 * whole());
            let blacks = adjustments::with_band(c, s, zero, quart, true)[ch];
            let shadows = adjustments::with_band(c, s, zero, half, true)[ch];
            let highlights = adjustments::with_band(c, s, half, one, false)[ch];
            let whites = adjustments::with_band(c, s, three, one, false)[ch];
            &&& agrees(units_of(blacks), in_band(c, ch, a, 0, 1, true), 2 * whole() * (d * (d * d)))
            &&& agrees(units_of(shadows), in_band(c, ch, a, 0, 2, true), 2 * whole() * (e * (e * e)))
            &&& agrees(
                units_of(highlights),
                in_band(c, ch, a, 2, 4, false),
                2 * whole() * (e * (e * e)),
            )
            &&& agrees(units_of(whites), in_band(c, ch, a, 3, 4, false), 2 * whole() * (d * (d * d)))
        }),
{
    let (zero, quart) = (Single { bits: 0 }, Single { bits: 0x3e80_0000 });
    let (half, three) = (Single { bits: 0x3f00_0000 }, Single { bits: 0x3f40_0000 });
    let one = Single { bits: 0x3f80_0000 };
    lemma_measures();
    lemma_ends();
    bounded::lemma_fractions();
    assert(Single::zero() == zero && Single::one() == one);
    assert(laws::is_finite(quart) && laws::is_finite(half) && laws::is_finite(three)) by {
        assert(quart.number().index < 0x7f80_0000);
        assert(half.number().index < 0x7f80_0000);
        assert(three.number().index < 0x7f80_0000);
    }
    lemma_band(c, s, zero, quart, 0, 1, true, ch);
    lemma_band(c, s, zero, half, 0, 2, true, ch);
    lemma_band(c, s, half, one, 2, 4, false, ch);
    lemma_band(c, s, three, one, 3, 4, false, ch);
    assert(1 * (2500 * whole()) == 2500 * whole() && 2 * (2500 * whole()) == 5000 * whole());
}

/// 0.3, but for a grain.
pub(crate) proof fn lemma_three_tenths()
    ensures
        ({
            let x = Single { bits: 0x3e99_999a };
            &&& within(x, 1, 2)
            &&& close(10 * units_of(x), 3 * whole(), 10 * grain())
        }),
{
    reveal(units_of);
    lemma_measures();
    lemma2_to64();
    let x = Single { bits: 0x3e99_999a };
    assert(x.number().index == 0x3e99_999a && !x.number().negative);
    assert(0x3e99_999anat / 0x80_0000nat == 125 && 0x3e99_999anat % 0x80_0000nat == 0x19_999a);
    let h = pow2(123) as int;
    lemma_pow2_unfold(124);
    assert((0x80_0000 + 0x19_999a) * (2 * h) == 20132660 * h) by (nonlinear_arith);
}

/// A quotient does not tell whether both its parts were turned around.
proof fn lemma_signs_cancel(x: Single, y: Single)
    requires
        laws::is_finite(x),
        laws::is_finite(y),
        units_of(y) < 0,
    ensures
        x.over(y) == x.opposite().over(y.opposite()),
        laws::is_finite(x.opposite()),
        laws::is_finite(y.opposite()),
        units_of(x.opposite()) == -units_of(x),
        units_of(y.opposite()) == -units_of(y),
{
    reveal(units_of);
    assert(x.opposite().number().index == x.number().index);
    assert(x.opposite().number().negative == !x.number().negative);
    assert(y.opposite().number().index == y.number().index);
    assert(y.opposite().number().negative == !y.number().negative);
}

/// Where a pixel stands between the corner and where the vignette begins.
proof fn lemma_reach(reach: Single, corner: Single)
    requires
        laws::is_finite(reach),
        laws::is_finite(corner),
        0 <= units_of(reach) <= units_of(corner),
        units_of(corner) > 0,
    ensures
        ({
            let (outer, inner) = (Single { bits: 0x3f80_0000 }, Single { bits: 0x3e99_999a });
            let t = tones::place(outer, inner, reach.over(corner));
            let d = 7 * units_of(corner);
            let u = held(10 * (units_of(corner) - units_of(reach)), 0, d);
            &&& within(t, 0, 4)
            &&& close(units_of(t) * d, u * whole(), (60 * grain()) * d)
        }),
{
    let (outer, inner) = (Single { bits: 0x3f80_0000 }, Single { bits: 0x3e99_999a });
    let (w, g, q) = (whole(), grain(), quarter());
    let (n, c) = (units_of(reach), units_of(corner));
    lemma_measures();
    lemma_ends();
    lemma_three_tenths();
    assert(Single::one() == outer);
    assert((0 * q) * c <= n * w <= (4 * q) * c) by (nonlinear_arith)
        requires
            0 <= n <= c,
            w == 4 * q,
            q > 0,
    ;
    lemma_over(reach, corner, 0, 4, 4);
    let r = reach.over(corner);
    lemma_minus(r, outer, -4, 0, 4);
    lemma_minus(inner, outer, -3, -2, 3);
    let (a, b) = (r.minus(outer), inner.minus(outer));
    lemma_signs_cancel(a, b);
    let (x, y) = (a.opposite(), b.opposite());
    let (ux, uy, ur) = (units_of(x), units_of(y), units_of(r));
    assert(close(10 * uy, 7 * w, 40 * g));
    assert((0 * q) * uy <= ux * w <= (8 * q) * uy) by (nonlinear_arith)
        requires
            0 <= ux <= 4 * q,
            uy >= 2 * q,
            w == 4 * q,
            q > 0,
    ;
    lemma_over(x, y, 0, 8, 8);
    let z = x.over(y);
    lemma_clamp(z);
    bounded::lemma_clamp_any(z);
    let t = tones::place(outer, inner, r);
    assert(t == z.clamped(Single::zero(), Single::one()));
    let uz = units_of(z);
    // The place, before it is held.
    let d = 7 * c;
    let free = 10 * (c - n);
    assert(close(uz * d, free * w, (60 * g) * d)) by {
        lemma_ratio_moved(uz, ux, uy, ur, n, c, w, g);
    }
    let u = held(free, 0, d);
    let ut = units_of(t);
    assert(ut == held(uz, 0, w));
    assert(close(ut * d, u * w, (60 * g) * d)) by {
        assert(uz >= 0);
        assert((60 * g) * d >= 0) by (nonlinear_arith)
            requires
                g > 0,
                d > 0,
        ;
        assert(free >= 0);
        if uz > w {
            assert(uz * d >= w * d) by (nonlinear_arith)
                requires
                    uz > w,
                    d > 0,
            ;
        } else {
            assert(uz * d <= w * d) by (nonlinear_arith)
                requires
                    uz <= w,
                    d > 0,
            ;
        }
        if free > d {
            assert(free * w >= d * w) by (nonlinear_arith)
                requires
                    free > d,
                    w > 0,
            ;
        } else {
            assert(free * w <= d * w) by (nonlinear_arith)
                requires
                    free <= d,
                    w > 0,
            ;
        }
        assert(w * d == d * w) by (nonlinear_arith);
    }
}

proof fn lemma_ratio_moved(uz: int, ux: int, uy: int, ur: int, n: int, c: int, w: int, g: int)
    requires
        close(uz * uy, ux * w, (9 * g) * uy),
        close(ur * c, n * w, (5 * g) * c),
        close(ux, w - ur, 4 * g),
        close(10 * uy, 7 * w, 40 * g),
        0 <= uz <= 2 * w,
        2 * uy >= w,
        4 * uy <= 3 * w,
        c > 0,
        w > 0,
        g > 0,
    ensures
        close(uz * (7 * c), (10 * (c - n)) * w, (60 * g) * (7 * c)),
{
    let o = (g * w) * c;
    // Ten times the quotient's own error.
    assert(close(10 * (uz * uy) * c, 10 * (ux * w) * c, 68 * o)) by (nonlinear_arith)
        requires
            close(uz * uy, ux * w, (9 * g) * uy),
            4 * uy <= 3 * w,
            o == (g * w) * c,
            c > 0,
            g > 0,
    {
        let k = uz * uy - ux * w;
        assert((9 * g) * uy * 4 <= (27 * g) * w);
        assert(-((27 * g) * w) <= 4 * k <= (27 * g) * w);
        assert(-(27 * o) <= (4 * k) * c <= 27 * o);
        assert(10 * (uz * uy) * c - 10 * (ux * w) * c == 10 * (k * c));
        assert((4 * k) * c == 4 * (k * c));
    }
    assert(close((10 * uy) * (uz * c), (7 * w) * (uz * c), 80 * o)) by (nonlinear_arith)
        requires
            close(10 * uy, 7 * w, 40 * g),
            0 <= uz <= 2 * w,
            o == (g * w) * c,
            c > 0,
            g > 0,
    {
        let (k, m) = (10 * uy - 7 * w, uz * c);
        assert(0 <= m <= 2 * (w * c));
        assert(-((40 * g) * m) <= k * m <= (40 * g) * m);
        assert((40 * g) * m <= (40 * g) * (2 * (w * c)));
        assert((40 * g) * (2 * (w * c)) == 80 * o);
    }
    assert(10 * (uz * uy) * c == (10 * uy) * (uz * c)) by (nonlinear_arith);
    assert(close(10 * (ux * w) * c, (10 * (c - n)) * w * w, 90 * o)) by (nonlinear_arith)
        requires
            close(ux, w - ur, 4 * g),
            close(ur * c, n * w, (5 * g) * c),
            o == (g * w) * c,
            c > 0,
            w > 0,
    {
        let (j, k) = (ux - (w - ur), ur * c - n * w);
        assert(10 * (ux * w) * c == 10 * (w * (ux * c)));
        assert(ux * c == w * c - ur * c + j * c);
        assert(ux * c == (c - n) * w - k + j * c);
        assert(-((4 * g) * c) <= j * c <= (4 * g) * c);
        let e = j * c - k;
        assert(-((9 * g) * c) <= e <= (9 * g) * c);
        assert(-((9 * g) * c * w) <= e * w <= (9 * g) * c * w);
        assert((9 * g) * c * w == 9 * o);
        assert(10 * (w * (ux * c)) == (10 * (c - n)) * w * w + 10 * (e * w));
    }
    let v = uz * (7 * c);
    assert((7 * w) * (uz * c) == v * w) by (nonlinear_arith)
        requires
            v == uz * (7 * c),
    ;
    let f = (10 * (c - n)) * w;
    assert(f * w == (10 * (c - n)) * w * w);
    assert(close(v * w, f * w, 238 * o));
    assert(close(v, f, (60 * g) * (7 * c))) by (nonlinear_arith)
        requires
            close(v * w, f * w, 238 * o),
            o == (g * w) * c,
            w > 0,
            c > 0,
            g > 0,
    {
        assert(238 * o == ((238 * g) * c) * w);
        assert(close(v, f, (238 * g) * c));
        assert((238 * g) * c <= (60 * g) * (7 * c));
    }
}

/// The vignette multiplies by one plus the amount times what its mask leaves of
/// one. The mask is one up to three tenths of the way from the centre to the
/// corner, and falls to nothing there along the smooth curve.
pub proof fn law_vignette_falls_off(c: [Single; 3], s: Single, reach: Single, corner: Single, ch: int)
    requires
        is_color(c),
        within(s, -4, 4),
        laws::is_finite(reach),
        laws::is_finite(corner),
        0 <= units_of(reach) <= units_of(corner),
        units_of(corner) > 0,
        0 <= ch < 3,
    ensures
        ({
            let d = 7 * units_of(corner);
            let cubed = d * (d * d);
            let u = held(10 * (units_of(corner) - units_of(reach)), 0, d);
            agrees(
                units_of(adjustments::with_vignette(c, s, reach, corner)[ch]),
                units_of(c[ch]) * (whole() * cubed + units_of(s) * (cubed - smooth(u, d))),
                whole() * cubed,
            )
        }),
{
    let r = adjustments::with_vignette(c, s, reach, corner)[ch];
    let (w, g) = (whole(), grain());
    lemma_measures();
    lemma_ends();
    let d = 7 * units_of(corner);
    let cubed = d * (d * d);
    assert(cubed > 0) by (nonlinear_arith)
        requires
            d > 0,
            cubed == d * (d * d),
    ;
    let scale = w * cubed;
    assert(scale > 0) by (nonlinear_arith)
        requires
            w > 0,
            cubed > 0,
            scale == w * cubed,
    ;
    let u = held(10 * (units_of(corner) - units_of(reach)), 0, d);
    let m = cubed - smooth(u, d);
    let (x, a) = (units_of(c[ch]), units_of(s));
    let wanted = x * (scale + a * m);
    if adjustments::active(s) {
        let (outer, inner) = (Single { bits: 0x3f80_0000 }, Single { bits: 0x3e99_999a });
        let ratio = reach.over(corner);
        let t = tones::place(outer, inner, ratio);
        lemma_reach(reach, corner);
        lemma_smooth(t, u, d, 60);
        let mask = bounded::curve(t);
        assert(mask == adjustments::smoothstep(outer, inner, ratio));
        assert((139 * g) * cubed <= (225 * g) * cubed) by (nonlinear_arith)
            requires
                g > 0,
                cubed > 0,
        ;
        lemma_mask(mask, true, smooth(u, d), cubed);
        let left = Single::one().minus(mask);
        lemma_scaled_either(s, left);
        let p = s.times(left);
        lemma_plus(Single::one(), p, -2, 10, 10);
        let gain = Single::one().plus(p);
        lemma_order(Single::one(), Single::one());
        bounded::lemma_vignette_gain(s, reach, corner);
        assert(within(gain, 0, 8));
        lemma_gained(c[ch], gain);
        assert(r == c[ch].times(gain));
        lemma_falloff(units_of(r), x, a, units_of(gain), units_of(p), units_of(left), m, cubed, w, g);
        lemma_agrees(units_of(r), wanted, scale, 300);
    } else {
        lemma_inactive(s);
        assert(0 * m == 0) by (nonlinear_arith);
        lemma_exact(x, wanted, scale);
    }
}

/// An amount times a mask.
proof fn lemma_scaled_either(s: Single, left: Single)
    requires
        within(s, -4, 4),
        within(left, -1, 5),
    ensures
        within(s.times(left), -6, 6),
        close(
            units_of(s.times(left)) * whole(),
            units_of(s) * units_of(left),
            (7 * grain()) * whole(),
        ),
{
    lemma_measures();
    lemma_multiplied(s, left, 4, 6, 6);
}

proof fn lemma_falloff(
    got: int,
    x: int,
    a: int,
    gain: int,
    p: int,
    left: int,
    m: int,
    cubed: int,
    w: int,
    g: int,
)
    requires
        close(got * w, x * gain, (9 * g) * w),
        close(gain, w + p, 10 * g),
        close(p * w, a * left, (7 * g) * w),
        close(left * cubed, w * m, (230 * g) * cubed),
        0 <= x <= w,
        -w <= a <= w,
        cubed > 0,
        w > 0,
        g > 0,
    ensures
        close(got * (w * cubed), x * (w * cubed + a * m), (300 * g) * (w * cubed)),
{
    // The gain, counted in wholes.
    let e = gain * w - (w * w + a * left);
    assert(-((17 * g) * w) <= e <= (17 * g) * w) by (nonlinear_arith)
        requires
            close(gain, w + p, 10 * g),
            close(p * w, a * left, (7 * g) * w),
            e == gain * w - (w * w + a * left),
            w > 0,
    {
        let k = gain - (w + p);
        assert(-((10 * g) * w) <= k * w <= (10 * g) * w);
        assert(gain * w == w * w + p * w + k * w);
    }
    let o = ((g * w) * w) * cubed;
    let f = left * cubed - w * m;
    assert(-(230 * o) <= (a * f) * w <= 230 * o) by (nonlinear_arith)
        requires
            -((230 * g) * cubed) <= f <= (230 * g) * cubed,
            -w <= a <= w,
            o == ((g * w) * w) * cubed,
            w > 0,
            g > 0,
            cubed > 0,
    {
        assert(-(w * ((230 * g) * cubed)) <= a * f <= w * ((230 * g) * cubed));
        assert(-((w * ((230 * g) * cubed)) * w) <= (a * f) * w <= (w * ((230 * g) * cubed)) * w);
        assert((w * ((230 * g) * cubed)) * w == 230 * o);
    }
    // gain * w * cubed is w * (w * cubed + a * m), but for e * cubed + a * f.
    let h = w * cubed + a * m;
    assert((gain * w) * cubed == w * h + e * cubed + a * f) by (nonlinear_arith)
        requires
            e == gain * w - (w * w + a * left),
            f == left * cubed - w * m,
            h == w * cubed + a * m,
    {
        assert((gain * w) * cubed == (w * w) * cubed + (a * left) * cubed + e * cubed);
        assert((a * left) * cubed == a * (left * cubed));
        assert(a * (left * cubed) == a * (w * m) + a * f);
    }
    let j = e * cubed + a * f;
    assert(-(247 * o) <= j * w <= 247 * o) by (nonlinear_arith)
        requires
            -((17 * g) * w) <= e <= (17 * g) * w,
            -(230 * o) <= (a * f) * w <= 230 * o,
            j == e * cubed + a * f,
            o == ((g * w) * w) * cubed,
            w > 0,
            cubed > 0,
    {
        assert(-(((17 * g) * w) * cubed) <= e * cubed <= ((17 * g) * w) * cubed);
        assert(-((((17 * g) * w) * cubed) * w) <= (e * cubed) * w <= (((17 * g) * w) * cubed) * w);
        assert((((17 * g) * w) * cubed) * w == 17 * o);
    }
    let k = got * w - x * gain;
    assert(-(9 * o) <= (k * w) * cubed <= 9 * o) by (nonlinear_arith)
        requires
            -((9 * g) * w) <= k <= (9 * g) * w,
            o == ((g * w) * w) * cubed,
            w > 0,
            cubed > 0,
    {
        assert(-(((9 * g) * w) * w) <= k * w <= ((9 * g) * w) * w);
        assert(-((((9 * g) * w) * w) * cubed) <= (k * w) * cubed <= (((9 * g) * w) * w) * cubed);
    }
    let scale = w * cubed;
    let v = got * scale - x * h;
    assert(v * w == (k * w) * cubed + x * j) by (nonlinear_arith)
        requires
            v == got * scale - x * h,
            scale == w * cubed,
            k == got * w - x * gain,
            (gain * w) * cubed == w * h + j,
    {
        assert((got * scale) * w == (got * w) * (w * cubed));
        assert((got * w) * (w * cubed) == (x * gain) * (w * cubed) + k * (w * cubed));
        assert((x * gain) * (w * cubed) == x * ((gain * w) * cubed));
        assert(x * (w * h + j) == (x * h) * w + x * j);
    }
    assert(-(247 * o) <= x * j <= 247 * o) by (nonlinear_arith)
        requires
            -(247 * o) <= j * w <= 247 * o,
            0 <= x <= w,
    {
        if j >= 0 {
            assert(0 <= x * j <= w * j);
        } else {
            assert(w * j <= x * j <= 0);
        }
    }
    assert(-((300 * g) * scale) <= v <= (300 * g) * scale) by (nonlinear_arith)
        requires
            -(256 * o) <= v * w <= 256 * o,
            o == ((g * w) * w) * cubed,
            scale == w * cubed,
            w > 0,
            g > 0,
            cubed > 0,
    {
        assert(256 * o == ((256 * g) * scale) * w);
        assert(-((256 * g) * scale) <= v <= (256 * g) * scale);
        assert((256 * g) * scale <= (300 * g) * scale);
    }
}

} // verus!
