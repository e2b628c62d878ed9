//! Where the dark tonal bands end and the bright ones start.
//!
//! The dark bands leave a color alone whose luma is a half or more, and lift a
//! darker one to little more than a half. So no color gets far into both.

use crate::color::adjustments;
use crate::color::agreement;
use crate::color::bounded;
use crate::color::bounded::{band_edges, band_weight, curve, mixed};
use crate::color::drift;
use crate::color::drift::{grain, pair, quarter, units_of, whole, within};
use crate::color::laws as color_laws;
use crate::color::lut::identity::close;
use crate::color::tones;
use crate::color::tones::{all_lie, all_toward, band_target, place, toned};
use crate::ieee::grid;
use crate::ieee::grid::Format;
use crate::ieee::laws;
use crate::ieee::single::Single;
use vstd::prelude::*;

verus! {

/// Two colors whose channels are the same values.
pub open spec fn same(c: [Single; 3], d: [Single; 3]) -> bool {
    forall|i: int|
        0 <= i < 3 ==> laws::is_finite(#[trigger] c[i]) && laws::is_finite(d[i]) && units_of(c[i])
            == units_of(d[i])
}

/// A value without units is zero, and the other way round.
proof fn lemma_nothing(x: Single)
    requires
        laws::is_finite(x),
    ensures
        units_of(x) == 0 <==> x.number().index == 0,
{
    reveal(units_of);
    let k = x.number().index as nat;
    assert(grid::units(Format::Single, 0) == 0);
    if k > 0 {
        grid::lemma_units_increase(Format::Single, 0, k);
    }
}

/// A channel moved by a weight of zero stays.
proof fn lemma_unmoved(v: Single, target: Single, w: Single)
    requires
        within(v, -11, 11),
        within(target, 0, 0) || within(target, 4, 4),
        w.number().index == 0,
    ensures
        ({
            let r = adjustments::toward(v, target, w);
            laws::is_finite(r) && units_of(r) == units_of(v)
        }),
{
    drift::lemma_measures();
    assert(0 * quarter() == 0);
    drift::lemma_minus(target, v, -15, 15, 15);
    let t = target.minus(v);
    laws::law_times_zero(t, w);
    let z = t.times(w);
    laws::law_plus_zero(v, z);
    assert(laws::is_finite(z));
    lemma_nothing(z);
    drift::lemma_plus(v, z, -11, 11, 11);
    let r = v.plus(z);
    drift::lemma_order(r, v);
    drift::lemma_order(v, r);
}

/// A band whose weight is zero leaves a color as it is.
proof fn lemma_left_alone(
    c: [Single; 3],
    amount: Single,
    from: Single,
    to: Single,
    dark: bool,
)
    requires
        bounded::all_within(c, 11),
        band_weight(c, amount, from, to, dark).number().index == 0,
    ensures
        same(c, adjustments::with_band(c, amount, from, to, dark)),
{
    drift::lemma_ends();
    let w = band_weight(c, amount, from, to, dark);
    let target = band_target(amount);
    lemma_unmoved(c[0], target, w);
    lemma_unmoved(c[1], target, w);
    lemma_unmoved(c[2], target, w);
    if adjustments::active(amount) {
        assert(adjustments::with_band(c, amount, from, to, dark) == all_toward(c, target, w));
    }
}

/// A mask of zero weighs nothing.
proof fn lemma_no_weight(mask: Single, amount: Single)
    requires
        mask.number().index == 0,
        within(amount, -4, 4),
    ensures
        amount.magnitude().times(mask).times(
            Single { bits: adjustments::TONAL_STRENGTH },
        ).number().index == 0,
{
    bounded::lemma_magnitude(amount);
    let half = Single { bits: adjustments::TONAL_STRENGTH };
    laws::law_times_zero(amount.magnitude(), mask);
    laws::law_times_zero(half, amount.magnitude().times(mask));
}

/// A dark band leaves a color alone whose luma is past its upper edge.
proof fn lemma_past(c: [Single; 3], amount: Single, from: Single, to: Single, a: int, b: int)
    requires
        band_edges(from, to, a, b),
        bounded::all_within(c, 11),
        within(amount, -4, 4),
        units_of(adjustments::luma(c)) >= b * quarter(),
    ensures
        same(c, adjustments::with_band(c, amount, from, to, true)),
{
    let (zero, one) = (Single::zero(), Single::one());
    drift::lemma_measures();
    drift::lemma_ends();
    bounded::lemma_luma(c, 11);
    let x = adjustments::luma(c);
    tones::lemma_place(from, to, a, b, x);
    bounded::lemma_place(from, to, a, b, x, 12);
    let ratio = x.minus(from).over(to.minus(from));
    drift::lemma_clamp(ratio);
    drift::lemma_order(one, ratio);
    color_laws::lemma_smoothstep_full(from, to, x);
    laws::law_minus_itself(one);
    lemma_no_weight(one.minus(one), amount);
    lemma_left_alone(c, amount, from, to, true);
}

/// A bright band leaves a color alone whose luma is short of its lower edge.
proof fn lemma_short(c: [Single; 3], amount: Single, from: Single, to: Single, a: int, b: int)
    requires
        band_edges(from, to, a, b),
        bounded::all_within(c, 11),
        within(amount, -4, 4),
        units_of(adjustments::luma(c)) <= a * quarter(),
    ensures
        same(c, adjustments::with_band(c, amount, from, to, false)),
{
    let two = Single { bits: adjustments::TWO };
    let three = Single { bits: adjustments::THREE };
    drift::lemma_measures();
    bounded::lemma_luma(c, 11);
    let x = adjustments::luma(c);
    tones::lemma_place(from, to, a, b, x);
    let t = place(from, to, x);
    lemma_nothing(t);
    laws::law_times_zero(t, t);
    laws::law_times_zero(two, t);
    laws::law_minus_zero(three, two.times(t));
    let rest = three.minus(two.times(t));
    laws::law_times_zero(rest, t.times(t));
    assert(curve(t).number().index == 0);
    lemma_no_weight(curve(t), amount);
    lemma_left_alone(c, amount, from, to, false);
}

/// Colors that are the same are followed alike.
proof fn lemma_same_toned(
    c: [Single; 3],
    d: [Single; 3],
    r: [Single; 3],
    s: [Single; 3],
    e: int,
    k: int,
    m: int,
    a: int,
    b: int,
)
    requires
        toned(c, d, e, k, m, a, b),
        same(c, r),
        same(d, s),
    ensures
        toned(r, s, e, k, m, a, b),
        mixed(r) == mixed(c),
        mixed(s) == mixed(d),
{
    assert(units_of(r[0]) == units_of(c[0]) && units_of(r[1]) == units_of(c[1]) && units_of(r[2])
        == units_of(c[2]));
    assert(units_of(s[0]) == units_of(d[0]) && units_of(s[1]) == units_of(d[1]) && units_of(s[2])
        == units_of(d[2]));
    assert(laws::is_finite(r[0]) && laws::is_finite(r[1]) && laws::is_finite(r[2]));
    assert(laws::is_finite(s[0]) && laws::is_finite(s[1]) && laws::is_finite(s[2]));
}

/// The cubes that bound how far the dark bands lift: for blacks.
proof fn lemma_lift_blacks(t: int, p: int, n: int)
    requires
        0 <= t <= p,
        n == (t * t) * (3 * p - 2 * t),
    ensures
        1000 * (t * (p * (p * p)) - (4 * p - t) * n) <= 96 * (p * (p * (p * p))),
{
    let p2 = p * p;
    let tt = t * t;
    assert((4 * p - t) * n >= 3 * (tt * p2)) by (nonlinear_arith)
        requires
            n == tt * (3 * p - 2 * t),
            tt == t * t,
            p2 == p * p,
            0 <= t <= p,
    {
        assert(tt >= 0);
        assert(tt * (3 * p - 2 * t) >= tt * p);
        assert(n >= 0);
        assert((4 * p - t) * n >= (3 * p) * n);
        assert((3 * p) * n >= (3 * p) * (tt * p));
        assert((3 * p) * (tt * p) == 3 * (tt * p2));
    }
    assert(1000 * (t * (p * p2) - 3 * (tt * p2)) <= 96 * (p * (p * p2))) by (nonlinear_arith)
        requires
            tt == t * t,
            p2 == p * p,
            0 <= t <= p,
    {
        let h = 1500 * t - 250 * p;
        assert(h * h >= 0);
        assert(h * h == 2250000 * tt - 750000 * (t * p) + 62500 * p2);
        let k = 96 * p2 - 1000 * (t * p) + 3000 * tt;
        assert(k >= 0);
        assert(96 * (p * (p * p2)) - 1000 * (t * (p * p2) - 3 * (tt * p2)) == k * p2);
        assert(p2 >= 0);
        assert(k * p2 >= 0);
    }
}

/// And for shadows.
proof fn lemma_lift_shadows(t: int, p: int, n: int)
    requires
        0 <= t <= p,
        n == (t * t) * (3 * p - 2 * t),
    ensures
        1000 * ((2 * t) * (p * (p * p)) - (4 * p - 2 * t) * n) <= 144 * (p * (p * (p * p))),
{
    let p2 = p * p;
    let tt = t * t;
    let f = 6 * p2 - 7 * (p * t) + 2 * tt;
    assert((2 * p - t) * n == tt * f) by (nonlinear_arith)
        requires
            n == tt * (3 * p - 2 * t),
            tt == t * t,
            p2 == p * p,
            f == 6 * p2 - 7 * (p * t) + 2 * tt,
    ;
    assert((4 * p - 2 * t) * n == 2 * ((2 * p - t) * n)) by (nonlinear_arith);
    assert((2 * t) * (p * p2) == 2 * (t * (p * p2))) by (nonlinear_arith);
    if 5 * t <= 2 * p {
        assert(100 * f >= 352 * p2) by (nonlinear_arith)
            requires
                f == 6 * p2 - 7 * (p * t) + 2 * tt,
                tt == t * t,
                p2 == p * p,
                0 <= 5 * t <= 2 * p,
        {
            assert((5 * t - 2 * p) * (10 * t - 31 * p) >= 0);
            assert((5 * t - 2 * p) * (10 * t - 31 * p) == 50 * tt - 175 * (p * t) + 62 * p2);
        }
        assert(100 * (tt * f) >= 352 * (tt * p2)) by (nonlinear_arith)
            requires
                100 * f >= 352 * p2,
                tt >= 0,
        ;
        assert(tt >= 0) by (nonlinear_arith)
            requires
                tt == t * t,
        ;
        assert(1000 * (t * (p * p2)) - 3520 * (tt * p2) <= 72 * (p * (p * p2))) by (nonlinear_arith)
            requires
                tt == t * t,
                p2 == p * p,
        {
            let h = 7040 * t - 1000 * p;
            assert(h * h >= 0);
            assert(h * h == 49561600 * tt - 14080000 * (t * p) + 1000000 * p2);
            let k = 72 * p2 - 1000 * (t * p) + 3520 * tt;
            assert(14080 * k == h * h + 13760 * p2);
            assert(p2 >= 0);
            assert(k >= 0);
            assert(72 * (p * (p * p2)) - (1000 * (t * (p * p2)) - 3520 * (tt * p2)) == k * p2);
            assert(k * p2 >= 0);
        }
    } else {
        assert(t * (p * p2) <= tt * f) by (nonlinear_arith)
            requires
                f == 6 * p2 - 7 * (p * t) + 2 * tt,
                tt == t * t,
                p2 == p * p,
                2 * p <= 5 * t,
                0 <= t <= p,
        {
            let g = 2 * tt - 5 * (p * t) + p2;
            assert(t * f - p * p2 == (t - p) * g);
            assert(5 * g <= 0) by {
                assert((5 * t - 2 * p) * (t - p) <= 0);
                assert((5 * t - 2 * p) * (t - p) == 5 * tt - 7 * (p * t) + 2 * p2);
                assert(p * (5 * t - 2 * p) >= 0);
                assert(p * (5 * t - 2 * p) == 5 * (p * t) - 2 * p2);
            }
            assert((t - p) * g >= 0);
            assert(t * (t * f - p * p2) >= 0);
            assert(t * (t * f) == tt * f);
            assert(t * (t * f - p * p2) == tt * f - t * (p * p2));
        }
        assert(p * (p * p2) >= 0) by (nonlinear_arith)
            requires
                p2 == p * p,
                p >= 0,
        ;
    }
}

/// The weight of a dark band against the place of the luma.
proof fn lemma_weight_bound(c: [Single; 3], amount: Single, from: Single, to: Single, a: int, b: int)
    requires
        band_edges(from, to, a, b),
        bounded::all_within(c, 11),
        within(amount, -4, 4),
    ensures
        ({
            let (p, g) = (whole(), grain());
            let t = units_of(place(from, to, adjustments::luma(c)));
            let w = units_of(band_weight(c, amount, from, to, true));
            &&& within(band_weight(c, amount, from, to, true), -3, 3)
            &&& -(40 * g) <= w <= 2 * quarter() + 40 * g
            &&& (2 * w) * (p * p) <= p * (p * p) - (t * t) * (3 * p - 2 * t) + (70 * g) * (p * p)
        }),
{
    let (q, g, p) = (quarter(), grain(), whole());
    let one = Single::one();
    drift::lemma_measures();
    drift::lemma_ends();
    assert(0 * q == 0);
    bounded::lemma_luma(c, 11);
    let x = adjustments::luma(c);
    tones::lemma_place(from, to, a, b, x);
    let s = place(from, to, x);
    bounded::lemma_curve(s);
    let r = curve(s);
    drift::lemma_minus(one, r, -1, 4, 4);
    let mask = one.minus(r);
    bounded::lemma_weight(mask, amount);
    bounded::lemma_magnitude(amount);
    let m = amount.magnitude();
    let (um, uk, u1) = (units_of(m), units_of(mask), units_of(m.times(mask)));
    let w = units_of(band_weight(c, amount, from, to, true));
    let over = if uk < 0 {
        0
    } else {
        uk
    };
    assert(um * uk <= over * p) by (nonlinear_arith)
        requires
            0 <= um <= p,
            over == if uk < 0 { 0 } else { uk },
    ;
    assert(u1 <= over + 6 * g) by (nonlinear_arith)
        requires
            u1 * p <= over * p + (6 * g) * p,
            p > 0,
    ;
    let t = units_of(s);
    let (n, pp) = ((t * t) * (3 * p - 2 * t), p * p);
    let ur = units_of(r);
    assert(pp > 0) by (nonlinear_arith)
        requires
            pp == p * p,
            p > 0,
    ;
    assert(n <= p * pp) by (nonlinear_arith)
        requires
            0 <= t <= p,
            n == (t * t) * (3 * p - 2 * t),
            pp == p * p,
    {
        assert(p * (p * p) - (t * t) * (3 * p - 2 * t) == ((p - t) * (p - t)) * (p + 2 * t));
        assert((p - t) * (p - t) >= 0);
        assert(((p - t) * (p - t)) * (p + 2 * t) >= 0);
    }
    assert(2 * w <= over + 14 * g);
    assert((2 * w) * pp <= p * pp - n + (70 * g) * pp) by (nonlinear_arith)
        requires
            2 * w <= over + 14 * g,
            over == if uk < 0 { 0 } else { uk },
            uk <= p - ur + 4 * g,
            ur * pp >= n - (49 * g) * pp,
            n <= p * pp,
            pp > 0,
            g > 0,
    {
        assert((2 * w) * pp <= (over + 14 * g) * pp);
        if uk < 0 {
            assert((14 * g) * pp <= (70 * g) * pp);
        } else {
            assert((over + 14 * g) * pp <= (p - ur + 18 * g) * pp);
            assert((p - ur + 18 * g) * pp == p * pp - ur * pp + (18 * g) * pp);
        }
    }
}

/// How far a mean is lifted toward white.
proof fn lemma_lifted(a: int, r: int, w: int, t: int, b: int, x: int)
    requires
        0 <= t <= whole(),
        b == 1 || b == 2,
        4 * a <= (b * t + 240 * grain()) * whole(),
        w <= whole(),
        (2 * w) * (whole() * whole()) <= whole() * (whole() * whole()) - (t * t) * (3 * whole() - 2 * t)
            + (70 * grain()) * (whole() * whole()),
        r * whole() <= a * (whole() - w) + (whole() * whole()) * w + ((28 * grain()) * whole())
            * whole(),
        1000 * ((b * t) * (whole() * (whole() * whole())) - (4 * whole() - b * t) * ((t * t) * (3
            * whole() - 2 * t))) <= x * (whole() * (whole() * (whole() * whole()))),
    ensures
        8000 * r <= (4000 + x) * (whole() * whole()) + (1000000 * grain()) * whole(),
{
    let (q, g, p) = (quarter(), grain(), whole());
    drift::lemma_measures();
    let p2 = p * p;
    let p3 = p * p2;
    let p4 = p * p3;
    let n = (t * t) * (3 * p - 2 * t);
    let v = b * t + 240 * g;
    assert(0 <= n <= p3) by (nonlinear_arith)
        requires
            0 <= t <= p,
            n == (t * t) * (3 * p - 2 * t),
            p2 == p * p,
            p3 == p * p2,
    {
        assert(p * (p * p) - (t * t) * (3 * p - 2 * t) == ((p - t) * (p - t)) * (p + 2 * t));
        assert((p - t) * (p - t) >= 0);
        assert(((p - t) * (p - t)) * (p + 2 * t) >= 0);
        assert(t * t >= 0);
        assert((t * t) * (3 * p - 2 * t) >= 0);
    }
    // 4 (a (p - w) + p p w) <= v p (p - w) + 4 p p w = v p p + p (4 p - v) w
    assert(4 * (a * (p - w)) <= (v * p) * (p - w)) by (nonlinear_arith)
        requires
            4 * a <= v * p,
            p - w >= 0,
    ;
    assert((v * p) * (p - w) + 4 * (p2 * w) == v * p2 + (p * (4 * p - v)) * w) by (nonlinear_arith)
        requires
            p2 == p * p,
    ;
    let k = p * (4 * p - v);
    assert(k >= 0) by (nonlinear_arith)
        requires
            k == p * (4 * p - v),
            v <= 4 * p,
            p > 0,
    ;
    assert(b * t <= 2 * p) by (nonlinear_arith)
        requires
            b == 1 || b == 2,
            0 <= t <= p,
    ;
    let m = p3 - n + (70 * g) * p2;
    assert(k * ((2 * w) * p2) <= k * m) by (nonlinear_arith)
        requires
            (2 * w) * p2 <= m,
            k >= 0,
    ;
    // 8 r p <= 2 v p p + 2 k w + 224 g p p, times p p.
    let e = (28 * g) * p;
    assert(4 * (r * p) <= v * p2 + k * w + 4 * (e * p));
    assert(8 * ((r * p) * p2) <= 2 * ((v * p2) * p2) + k * ((2 * w) * p2) + 8 * ((e * p) * p2))
        by (nonlinear_arith)
        requires
            4 * (r * p) <= v * p2 + k * w + 4 * (e * p),
            p2 >= 0,
    ;
    assert(p2 >= 0) by (nonlinear_arith)
        requires
            p2 == p * p,
    ;
    // In powers of p.
    assert((r * p) * p2 == r * p3) by (nonlinear_arith)
        requires
            p3 == p * p2,
    ;
    assert((v * p2) * p2 == v * p4) by (nonlinear_arith)
        requires
            p2 == p * p,
            p3 == p * p2,
            p4 == p * p3,
    ;
    assert((e * p) * p2 == (28 * g) * p4) by (nonlinear_arith)
        requires
            e == (28 * g) * p,
            p2 == p * p,
            p3 == p * p2,
            p4 == p * p3,
    ;
    assert(k * m == 4 * (p * p4) - v * p4 - k * n + k * ((70 * g) * p2)) by (nonlinear_arith)
        requires
            k == p * (4 * p - v),
            m == p3 - n + (70 * g) * p2,
            p2 == p * p,
            p3 == p * p2,
            p4 == p * p3,
    {
        assert(k * m == k * p3 - k * n + k * ((70 * g) * p2));
        assert(k * p3 == (4 * p - v) * (p * p3));
        assert((4 * p - v) * p4 == 4 * (p * p4) - v * p4);
    }
    assert(k * ((70 * g) * p2) <= (280 * g) * p4) by (nonlinear_arith)
        requires
            k == p * (4 * p - v),
            0 <= v,
            p2 == p * p,
            p3 == p * p2,
            p4 == p * p3,
            g > 0,
            p > 0,
    {
        assert(k <= 4 * p2);
        assert((70 * g) * p2 >= 0);
        assert(k * ((70 * g) * p2) <= (4 * p2) * ((70 * g) * p2));
        assert((4 * p2) * ((70 * g) * p2) == (280 * g) * (p2 * p2));
        assert(p2 * p2 == p4);
    }
    assert(0 <= v) by (nonlinear_arith)
        requires
            v == b * t + 240 * g,
            b == 1 || b == 2,
            t >= 0,
            g > 0,
    ;
    let y = (b * t) * p3 - (4 * p - b * t) * n;
    assert(v * p3 - (4 * p - v) * n <= y + (480 * g) * p3) by (nonlinear_arith)
        requires
            v == b * t + 240 * g,
            y == (b * t) * p3 - (4 * p - b * t) * n,
            0 <= n <= p3,
            g > 0,
    {
        let h = b * t;
        assert(v * p3 == h * p3 + (240 * g) * p3);
        assert((4 * p - v) * n == (4 * p - h) * n - (240 * g) * n);
        assert((240 * g) * n <= (240 * g) * p3);
    }
    assert(v * p4 - k * n == p * (v * p3 - (4 * p - v) * n)) by (nonlinear_arith)
        requires
            k == p * (4 * p - v),
            p4 == p * p3,
    ;
    assert(p * (v * p3 - (4 * p - v) * n) <= p * (y + (480 * g) * p3)) by (nonlinear_arith)
        requires
            v * p3 - (4 * p - v) * n <= y + (480 * g) * p3,
            p > 0,
    ;
    assert(p * (y + (480 * g) * p3) == p * y + (480 * g) * p4) by (nonlinear_arith)
        requires
            p4 == p * p3,
    ;
    assert((280 * g) * p4 + (480 * g) * p4 + 8 * ((28 * g) * p4) <= (1000 * g) * p4) by (nonlinear_arith)
        requires
            g > 0,
            p4 >= 0,
    ;
    assert(p4 >= 0) by (nonlinear_arith)
        requires
            p2 == p * p,
            p3 == p * p2,
            p4 == p * p3,
            p > 0,
    ;
    assert(8 * (r * p3) <= 4 * (p * p4) + p * y + (1000 * g) * p4);
    assert(1000 * (p * y) <= x * (p * p4)) by (nonlinear_arith)
        requires
            1000 * y <= x * p4,
            p > 0,
    ;
    assert(8000 * r <= (4000 + x) * p2 + (1000000 * g) * p) by (nonlinear_arith)
        requires
            8000 * (r * p3) <= 4000 * (p * p4) + x * (p * p4) + 1000 * ((1000 * g) * p4),
            p2 == p * p,
            p3 == p * p2,
            p4 == p * p3,
            p > 0,
    {
        assert(p3 > 0);
        assert(p * p4 == p2 * p3);
        assert((1000 * g) * p4 == ((1000 * g) * p) * p3);
        let z = (4000 + x) * p2 + (1000000 * g) * p;
        assert(z * p3 == 4000 * (p2 * p3) + x * (p2 * p3) + 1000 * (((1000 * g) * p) * p3));
        assert((8000 * r) * p3 <= z * p3);
    }
}

/// Values with the same units are one, or both zero.
proof fn lemma_one_value(x: Single, y: Single)
    requires
        laws::is_finite(x),
        laws::is_finite(y),
        units_of(x) == units_of(y),
    ensures
        x == y || (x.number().index == 0 && y.number().index == 0),
{
    reveal(units_of);
    let f = Format::Single;
    let (a, b) = (x.number().index as nat, y.number().index as nat);
    assert(grid::units(f, 0) == 0);
    if a > 0 {
        grid::lemma_units_increase(f, 0, a);
    }
    if b > 0 {
        grid::lemma_units_increase(f, 0, b);
    }
    if a < b {
        grid::lemma_units_increase(f, a, b);
    } else if b < a {
        grid::lemma_units_increase(f, b, a);
    }
}

proof fn lemma_same_times(x: Single, y: Single, w: Single)
    requires
        laws::is_finite(x),
        laws::is_finite(y),
        laws::is_finite(w),
        units_of(x) == units_of(y),
    ensures
        units_of(x.times(w)) == units_of(y.times(w)),
{
    reveal(units_of);
    lemma_one_value(x, y);
    if x.number().index == 0 {
        laws::law_times_zero(w, x);
        laws::law_times_zero(w, y);
        assert(grid::units(Format::Single, 0) == 0);
    }
}

proof fn lemma_same_plus(x: Single, y: Single, u: Single, v: Single)
    requires
        laws::is_finite(x),
        laws::is_finite(y),
        laws::is_finite(u),
        laws::is_finite(v),
        units_of(x) == units_of(u),
        units_of(y) == units_of(v),
    ensures
        units_of(x.plus(y)) == units_of(u.plus(v)),
{
    reveal(units_of);
    lemma_one_value(x, u);
    lemma_one_value(y, v);
    assert(grid::units(Format::Single, 0) == 0);
}

/// The same channels have the same luma.
proof fn lemma_same_luma(c: [Single; 3], d: [Single; 3])
    requires
        same(c, d),
        bounded::all_within(c, 11),
        bounded::all_within(d, 11),
    ensures
        units_of(adjustments::luma(c)) == units_of(adjustments::luma(d)),
{
    let red = Single { bits: adjustments::LUMA_RED };
    let green = Single { bits: adjustments::LUMA_GREEN };
    let blue = Single { bits: adjustments::LUMA_BLUE };
    drift::lemma_measures();
    bounded::lemma_weights();
    assert(units_of(c[0]) == units_of(d[0]) && units_of(c[1]) == units_of(d[1]) && units_of(c[2])
        == units_of(d[2]));
    lemma_same_times(c[0], d[0], red);
    lemma_same_times(c[1], d[1], green);
    lemma_same_times(c[2], d[2], blue);
    drift::lemma_scaled(c[0], red, -11, 11, 1, -11, 11, 11);
    drift::lemma_scaled(d[0], red, -11, 11, 1, -11, 11, 11);
    drift::lemma_scaled(c[1], green, -11, 11, 3, -11, 11, 11);
    drift::lemma_scaled(d[1], green, -11, 11, 3, -11, 11, 11);
    drift::lemma_scaled(c[2], blue, -11, 11, 1, -11, 11, 11);
    drift::lemma_scaled(d[2], blue, -11, 11, 1, -11, 11, 11);
    let (x, y) = (c[0].times(red), c[1].times(green));
    let (u, v) = (d[0].times(red), d[1].times(green));
    lemma_same_plus(x, y, u, v);
    drift::lemma_plus(x, y, -22, 22, 22);
    drift::lemma_plus(u, v, -22, 22, 22);
    lemma_same_plus(x.plus(y), c[2].times(blue), u.plus(v), d[2].times(blue));
}

/// The dark bands leave a color alone whose luma is a half or more.
proof fn lemma_bright_stays(c: [Single; 3], blacks: Single, shadows: Single)
    requires
        all_lie(c, 0),
        within(blacks, -4, 4),
        within(shadows, -4, 4),
        units_of(adjustments::luma(c)) >= 2 * quarter(),
    ensures
        ({
            let (zero, quart, half) = (
                Single { bits: 0 },
                Single { bits: 0x3e80_0000 },
                Single { bits: 0x3f00_0000 },
            );
            let r = adjustments::with_band(c, blacks, zero, quart, true);
            same(c, adjustments::with_band(r, shadows, zero, half, true))
        }),
{
    let (zero, quart, half) = (
        Single { bits: 0 },
        Single { bits: 0x3e80_0000 },
        Single { bits: 0x3f00_0000 },
    );
    drift::lemma_measures();
    bounded::lemma_fractions();
    drift::lemma_ends();
    assert(0 * quarter() == 0);
    tones::lemma_lie_within(c, 0);
    lemma_past(c, blacks, zero, quart, 0, 1);
    let r = adjustments::with_band(c, blacks, zero, quart, true);
    lemma_same_size(c, r);
    lemma_past(r, shadows, zero, half, 0, 2);
    lemma_same_again(c, r, adjustments::with_band(r, shadows, zero, half, true));
}

/// The same channels are as large, and have the same luma.
proof fn lemma_same_size(c: [Single; 3], d: [Single; 3])
    requires
        same(c, d),
        bounded::all_within(c, 11),
    ensures
        bounded::all_within(d, 11),
        units_of(adjustments::luma(c)) == units_of(adjustments::luma(d)),
{
    assert(units_of(c[0]) == units_of(d[0]) && laws::is_finite(d[0]));
    assert(units_of(c[1]) == units_of(d[1]) && laws::is_finite(d[1]));
    assert(units_of(c[2]) == units_of(d[2]) && laws::is_finite(d[2]));
    lemma_same_luma(c, d);
}

proof fn lemma_same_again(c: [Single; 3], d: [Single; 3], e: [Single; 3])
    requires
        same(c, d),
        same(d, e),
    ensures
        same(c, e),
{
    assert forall|i: int| 0 <= i < 3 implies laws::is_finite(#[trigger] c[i]) && laws::is_finite(e[i])
        && units_of(c[i]) == units_of(e[i]) by {
        assert(units_of(d[i]) == units_of(e[i]) && units_of(c[i]) == units_of(d[i]));
    }
}

/// The mean of the channels is no more than so many thousandths.
pub open spec fn low(c: [Single; 3], m: int) -> bool {
    1000 * mixed(c) <= m * (whole() * whole())
}

/// A dark band lifts the mean of a color to little more than a half.
proof fn lemma_dark_low(
    c: [Single; 3],
    amount: Single,
    from: Single,
    to: Single,
    b: int,
    e: int,
    m: int,
    x: int,
    n: int,
)
    requires
        band_edges(from, to, 0, b),
        (b == 1 && x == 96 && n == 513) || (b == 2 && x == 144 && n == 519),
        all_lie(c, e),
        0 <= e <= 1800,
        within(amount, -4, 4),
        low(c, m),
        m + 1 <= n,
        0 <= m,
    ensures
        low(adjustments::with_band(c, amount, from, to, true), n),
{
    let (q, g, p) = (quarter(), grain(), whole());
    let pp = p * p;
    drift::lemma_measures();
    drift::lemma_ends();
    assert(0 * q == 0);
    assert(pp == 0x400_0000 * (g * p) && g * p > 0) by (nonlinear_arith)
        requires
            pp == p * p,
            p == 4 * q,
            q == 0x100_0000 * g,
            g > 0,
    ;
    assert(m * pp + pp == (m + 1) * pp && (m + 1) * pp <= n * pp) by (nonlinear_arith)
        requires
            m + 1 <= n,
            pp > 0,
    ;
    if adjustments::active(amount) {
        tones::lemma_lie_within(c, e);
        lemma_weight_bound(c, amount, from, to, 0, b);
        let ws = band_weight(c, amount, from, to, true);
        let target = band_target(amount);
        let r = all_toward(c, target, ws);
        assert(adjustments::with_band(c, amount, from, to, true) == r);
        tones::lemma_moved(c[0], target, ws, e);
        tones::lemma_moved(c[1], target, ws, e);
        tones::lemma_moved(c[2], target, ws, e);
        let (t, w) = (units_of(target), units_of(ws));
        tones::lemma_mean_moved(c, r, t, w);
        tones::lemma_mean_lies(c, e);
        let (a, h) = (mixed(c), mixed(r));
        assert(0 <= e * g <= 2000 * g) by (nonlinear_arith)
            requires
                0 <= e <= 1800,
                g > 0,
        ;
        assert(-(3 * pp) <= a <= 3 * pp) by (nonlinear_arith)
            requires
                -((2 * q + e * g) * p) <= a <= (10 * q + e * g) * p,
                0 <= e * g <= 2000 * g,
                pp == p * p,
                p == 4 * q,
                q == 0x100_0000 * g,
                g > 0,
        {
            assert((10 * q + e * g) * p <= (12 * q) * p);
            assert((2 * q + e * g) * p <= (12 * q) * p);
            assert((12 * q) * p == 3 * pp);
        }
        lemma_dark_mean(c, amount, from, to, b, m, x, n, a, h, t, w);
    }
}

proof fn lemma_dark_mean(
    c: [Single; 3],
    amount: Single,
    from: Single,
    to: Single,
    b: int,
    m: int,
    x: int,
    n: int,
    a: int,
    h: int,
    t: int,
    w: int,
)
    requires
        band_edges(from, to, 0, b),
        (b == 1 && x == 96 && n == 513) || (b == 2 && x == 144 && n == 519),
        bounded::all_within(c, 11),
        within(amount, -4, 4),
        a == mixed(c),
        1000 * a <= m * (whole() * whole()),
        0 <= m,
        m + 1 <= n,
        -(3 * (whole() * whole())) <= a <= 3 * (whole() * whole()),
        t == 0 || t == whole(),
        w == units_of(band_weight(c, amount, from, to, true)),
        close(
            h * whole(),
            a * (whole() - w) + (t * whole()) * w,
            ((28 * grain()) * whole()) * whole(),
        ),
    ensures
        1000 * h <= n * (whole() * whole()),
{
    let (q, g, p) = (quarter(), grain(), whole());
    let (pp, gp) = (p * p, g * p);
    drift::lemma_measures();
    assert(0 * q == 0);
    lemma_weight_bound(c, amount, from, to, 0, b);
    bounded::lemma_luma(c, 11);
    let l = adjustments::luma(c);
    tones::lemma_place(from, to, 0, b, l);
    let (y, ul) = (units_of(place(from, to, l)), units_of(l));
    assert(pp == 0x400_0000 * gp && gp > 0) by (nonlinear_arith)
        requires
            pp == p * p,
            gp == g * p,
            p == 4 * q,
            q == 0x100_0000 * g,
            g > 0,
    ;
    assert((m + 1) * pp <= n * pp && m * pp + pp == (m + 1) * pp) by (nonlinear_arith)
        requires
            m + 1 <= n,
            pp > 0,
    ;
    if t == 0 || ul >= b * q {
        // Hardly a lift at all.
        if t == 0 {
            assert(h <= (if a < 0 { 0 } else { a }) + 160 * gp) by (nonlinear_arith)
                requires
                    h * p <= a * (p - w) + (0 * p) * w + ((28 * g) * p) * p,
                    -(40 * g) <= w <= p,
                    a <= 3 * pp,
                    pp == p * p,
                    gp == g * p,
                    g > 0,
                    p > 0,
            {
                if a < 0 {
                    assert(a * (p - w) <= 0);
                } else {
                    assert(a * (p - w) <= a * (p + 40 * g));
                    assert(a * (40 * g) <= (3 * pp) * (40 * g));
                    assert((3 * pp) * (40 * g) == (120 * gp) * p);
                }
                assert(((28 * g) * p) * p == (28 * gp) * p);
                let z = (if a < 0 { 0 } else { a }) + 160 * gp;
                assert(h * p <= z * p);
            }
        } else {
            assert(y == p);
            assert((p * p) * (3 * p - 2 * p) == p * pp) by (nonlinear_arith)
                requires
                    pp == p * p,
            ;
            assert(w <= 35 * g) by (nonlinear_arith)
                requires
                    (2 * w) * pp <= (70 * g) * pp,
                    pp > 0,
            ;
            assert(h <= a + 200 * gp) by (nonlinear_arith)
                requires
                    h * p <= a * (p - w) + (p * p) * w + ((28 * g) * p) * p,
                    -(40 * g) <= w <= 35 * g,
                    -(3 * pp) <= a <= 3 * pp,
                    pp == p * p,
                    gp == g * p,
                    g > 0,
                    p > 0,
            {
                assert(a * (p - w) + (p * p) * w == a * p + (pp - a) * w);
                assert(-(2 * pp) <= pp - a <= 4 * pp);
                assert((pp - a) * w <= (4 * pp) * (40 * g));
                assert((4 * pp) * (40 * g) == (160 * gp) * p);
                assert(((28 * g) * p) * p == (28 * gp) * p);
                assert(h * p <= (a + 200 * gp) * p);
            }
        }
        assert(m * pp >= 0) by (nonlinear_arith)
            requires
                m >= 0,
                pp > 0,
        ;
        assert(1000 * h <= m * pp + pp);
    } else {
        // From the place of the luma.
        assert(4 * a <= (b * y + 240 * g) * p) by {
            assert(4 * ul <= b * y + 18 * g) by {
                assert(y * b == b * y) by (nonlinear_arith);
                assert(b * q > 0) by (nonlinear_arith)
                    requires
                        b == 1 || b == 2,
                        q > 0,
                ;
                assert((9 * b) * g <= 18 * g) by (nonlinear_arith)
                    requires
                        b <= 2,
                        g > 0,
                ;
            }
            assert(4 * (ul * p) <= (b * y + 18 * g) * p) by (nonlinear_arith)
                requires
                    4 * ul <= b * y + 18 * g,
                    p > 0,
            ;
            assert((b * y + 240 * g) * p == (b * y + 18 * g) * p + 222 * gp) by (nonlinear_arith)
                requires
                    gp == g * p,
            ;
            assert((99 * g) * p == 99 * gp) by (nonlinear_arith)
                requires
                    gp == g * p,
            ;
        }
        let v = (y * y) * (3 * p - 2 * y);
        if b == 1 {
            lemma_lift_blacks(y, p, v);
            assert(1 * y == y);
        } else {
            lemma_lift_shadows(y, p, v);
        }
        lemma_lifted(a, h, w, y, b, x);
        assert((1000000 * g) * p == 1000000 * gp) by (nonlinear_arith)
            requires
                gp == g * p,
        ;
        assert((4000 + x) * pp <= (8 * n - 8) * pp) by (nonlinear_arith)
            requires
                4000 + x <= 8 * n - 8,
                pp > 0,
        ;
        assert((8 * n - 8) * pp == 8 * (n * pp) - 8 * pp) by (nonlinear_arith);
    }
}

/// Two smoothsteps near their start, where the curve is still flat.
proof fn lemma_curves_low(s: Single, t: Single, k: int, n: int)
    requires
        pair(s, t, 0, 4, k),
        0 <= k,
        25 * units_of(s) <= whole(),
        25 * units_of(t) <= whole(),
        6 * k + 2450 <= 25 * n,
    ensures
        close(units_of(curve(s)), units_of(curve(t)), n * grain()),
{
    let (g, p) = (grain(), whole());
    drift::lemma_measures();
    assert(0 * quarter() == 0);
    bounded::lemma_curve(s);
    bounded::lemma_curve(t);
    let (u, v) = (units_of(s), units_of(t));
    let (x, y) = (units_of(curve(s)), units_of(curve(t)));
    let (a, b) = ((u * u) * (3 * p - 2 * u), (v * v) * (3 * p - 2 * v));
    let z = p * p;
    let slope = 3 * p * (u + v) - 2 * (u * u + u * v + v * v);
    assert(a - b == (u - v) * slope) by (nonlinear_arith)
        requires
            a == (u * u) * (3 * p - 2 * u),
            b == (v * v) * (3 * p - 2 * v),
            slope == 3 * p * (u + v) - 2 * (u * u + u * v + v * v),
    ;
    assert(0 <= 25 * slope <= 6 * z) by (nonlinear_arith)
        requires
            0 <= 25 * u <= p,
            0 <= 25 * v <= p,
            slope == 3 * p * (u + v) - 2 * (u * u + u * v + v * v),
            z == p * p,
    {
        assert(u * u <= p * u);
        assert(v * v <= p * v);
        assert(u * v <= p * v);
        assert(u * v <= p * u);
        assert(3 * p * (u + v) == 3 * (p * u) + 3 * (p * v));
        assert(p * (25 * u) <= p * p);
        assert(p * (25 * v) <= p * p);
        assert(u * u >= 0 && u * v >= 0 && v * v >= 0);
    }
    let e = k * g;
    assert(-(6 * (e * z)) <= 25 * (a - b) <= 6 * (e * z)) by (nonlinear_arith)
        requires
            a - b == (u - v) * slope,
            -e <= u - v <= e,
            0 <= 25 * slope <= 6 * z,
    {
        assert(e >= 0);
        assert(-(e * slope) <= (u - v) * slope <= e * slope);
        assert(e * (25 * slope) <= e * (6 * z));
    }
    assert(z > 0) by (nonlinear_arith)
        requires
            z == p * p,
            p > 0,
    ;
    assert(6 * (e * z) + 50 * ((49 * g) * z) <= 25 * ((n * g) * z)) by (nonlinear_arith)
        requires
            e == k * g,
            6 * k + 2450 <= 25 * n,
            g > 0,
            z > 0,
    {
        let h = g * z;
        assert(h > 0);
        assert(e * z == k * h);
        assert((49 * g) * z == 49 * h);
        assert((n * g) * z == n * h);
        assert((6 * k + 2450) * h <= (25 * n) * h);
    }
    assert(x - y <= n * g) by (nonlinear_arith)
        requires
            x * z - y * z <= (n * g) * z,
            z > 0,
    ;
    assert(y - x <= n * g) by (nonlinear_arith)
        requires
            y * z - x * z <= (n * g) * z,
            z > 0,
    ;
}

/// A color that the dark bands left, in the highlights: just past their edge.
proof fn lemma_edge(c: [Single; 3], amount: Single, e: int)
    requires
        all_lie(c, e),
        0 <= e <= 1800,
        low(c, 519),
        within(amount, -4, 4),
    ensures
        ({
            let (half, one) = (Single { bits: 0x3f00_0000 }, Single { bits: 0x3f80_0000 });
            let w = band_weight(c, amount, half, one, false);
            &&& 25 * units_of(place(half, one, adjustments::luma(c))) <= whole()
            &&& 64 * units_of(w) <= whole()
            &&& within(w, -3, 3)
            &&& -(40 * grain()) <= units_of(w) <= 2 * quarter() + 40 * grain()
        }),
{
    let (half, one) = (Single { bits: 0x3f00_0000 }, Single { bits: 0x3f80_0000 });
    let (q, g, p) = (quarter(), grain(), whole());
    drift::lemma_measures();
    bounded::lemma_fractions();
    drift::lemma_ends();
    tones::lemma_lie_within(c, e);
    bounded::lemma_luma(c, 11);
    let l = adjustments::luma(c);
    assert(band_edges(half, one, 2, 4));
    tones::lemma_place(half, one, 2, 4, l);
    let (ul, all) = (units_of(l), mixed(c));
    assert(1000 * ul <= 519 * p + 50000 * g) by (nonlinear_arith)
        requires
            2 * (ul * p) <= 2 * all + (99 * g) * p,
            1000 * all <= 519 * (p * p),
            p > 0,
            g > 0,
    {
        assert(2000 * (ul * p) <= (1038 * p + 99000 * g) * p);
        assert((2000 * ul) * p <= (1038 * p + 100000 * g) * p);
    }
    let t = place(half, one, l);
    let ut = units_of(t);
    let y = tones::held(ul - 2 * q, 0, 2 * q);
    assert(ut * (4 - 2) == 2 * ut);
    assert((4 - 2) * q == 2 * q);
    assert(2 * ut <= 4 * y + 18 * g);
    assert(1000 * y <= 19 * p + 50000 * g);
    assert(25 * ut <= p);
    bounded::lemma_curve(t);
    let r = units_of(curve(t));
    assert(0 * q == 0);
    assert(200 * r <= p + 10000 * g) by (nonlinear_arith)
        requires
            r * (p * p) <= (ut * ut) * (3 * p - 2 * ut) + (49 * g) * (p * p),
            0 <= 25 * ut <= p,
            p > 0,
            g > 0,
    {
        assert((25 * ut) * (25 * ut) <= p * p);
        assert(625 * (ut * ut) <= p * p);
        assert((ut * ut) * (3 * p - 2 * ut) <= (ut * ut) * (3 * p));
        assert(625 * ((ut * ut) * (3 * p)) <= (p * p) * (3 * p));
        assert(200 * ((p * p) * (3 * p)) <= 625 * ((p * p) * p));
        assert((625 * 200) * (r * (p * p)) <= (625 * (p + 10000 * g)) * (p * p));
        assert(p * p > 0);
    }
    bounded::lemma_weight(curve(t), amount);
    bounded::lemma_magnitude(amount);
    let m = amount.magnitude();
    let (um, u1) = (units_of(m), units_of(m.times(curve(t))));
    assert(um * r <= r * p) by (nonlinear_arith)
        requires
            0 <= um <= p,
            r >= 0,
    ;
    assert(u1 <= r + 6 * g) by (nonlinear_arith)
        requires
            u1 * p <= r * p + (6 * g) * p,
            p > 0,
    ;
}

/// The mean of a color after a weight of a sixty-fourth at most.
proof fn lemma_little(c: [Single; 3], target: Single, w: Single, e: int)
    requires
        all_lie(c, e),
        0 <= e <= 1800,
        low(c, 519),
        within(target, 0, 0) || within(target, 4, 4),
        within(w, -3, 3),
        -(40 * grain()) <= units_of(w) <= 2 * quarter() + 40 * grain(),
        64 * units_of(w) <= whole(),
    ensures
        low(all_toward(c, target, w), 600),
{
    let (q, g, p) = (quarter(), grain(), whole());
    let pp = p * p;
    drift::lemma_measures();
    assert(0 * q == 0);
    tones::lemma_moved(c[0], target, w, e);
    tones::lemma_moved(c[1], target, w, e);
    tones::lemma_moved(c[2], target, w, e);
    let r = all_toward(c, target, w);
    let (t, uw, a, h) = (units_of(target), units_of(w), mixed(c), mixed(r));
    tones::lemma_mean_moved(c, r, t, uw);
    tones::lemma_mean_lies(c, e);
    assert(0 <= e * g <= 2000 * g) by (nonlinear_arith)
        requires
            0 <= e <= 1800,
            g > 0,
    ;
    assert(-pp <= a <= pp) by (nonlinear_arith)
        requires
            -((2 * q + e * g) * p) <= a,
            1000 * a <= 519 * pp,
            0 <= e * g <= 2000 * g,
            pp == p * p,
            p == 4 * q,
            q == 0x100_0000 * g,
            g > 0,
    {
        assert((2 * q + e * g) * p <= (4 * q) * p);
        assert((4 * q) * p == pp);
        assert(pp > 0);
    }
    let f = t * p - a;
    assert(a * (p - uw) + (t * p) * uw == a * p + f * uw) by (nonlinear_arith)
        requires
            f == t * p - a,
    ;
    assert(t * p == 0 || t * p == pp) by (nonlinear_arith)
        requires
            t == 0 || t == p,
            pp == p * p,
    ;
    assert(-(2 * pp) <= f <= 2 * pp);
    assert(32 * (f * uw) <= pp * p) by (nonlinear_arith)
        requires
            -(2 * pp) <= f <= 2 * pp,
            -(40 * g) <= uw,
            64 * uw <= p,
            64 * (40 * g) <= p,
            pp >= 0,
    {
        let v = 64 * uw;
        assert(-p <= v <= p);
        assert(f * v <= (2 * pp) * p);
        assert(f * v == 64 * (f * uw));
    }
    assert(pp > 0) by (nonlinear_arith)
        requires
            pp == p * p,
            p > 0,
    ;
    assert(((28 * g) * p) * p <= (pp * p)) by (nonlinear_arith)
        requires
            pp == p * p,
            28 * g <= p,
            p > 0,
    {
        assert((28 * g) * pp <= p * pp);
    }
    assert(1000 * h <= 600 * pp) by (nonlinear_arith)
        requires
            h * p <= a * p + f * uw + ((28 * g) * p) * p,
            32 * (f * uw) <= pp * p,
            1000 * a <= 519 * pp,
            pp == p * p,
            p == 4 * q,
            q == 0x100_0000 * g,
            g > 0,
            p > 0,
    {
        assert(1000 * (28 * g) <= p);
        assert(1000 * (((28 * g) * p) * p) == (1000 * (28 * g)) * pp);
        assert((1000 * (28 * g)) * pp <= p * pp);
        assert(1000 * (a * p) <= (519 * pp) * p);
        assert(1000 * (h * p) <= (600 * pp) * p);
    }
}

/// The bright bands over colors that the dark bands left.
proof fn lemma_after_dark(c: [Single; 3], d: [Single; 3], highlights: Single, whites: Single)
    requires
        toned(c, d, 400, 2484, 7210, 2573, 3092),
        low(c, 519),
        low(d, 519),
        within(highlights, -4, 4),
        within(whites, -4, 4),
    ensures
        ({
            let (half, most, one) = (
                Single { bits: 0x3f00_0000 },
                Single { bits: 0x3f40_0000 },
                Single { bits: 0x3f80_0000 },
            );
            let c = adjustments::with_band(c, highlights, half, one, false);
            let d = adjustments::with_band(d, highlights, half, one, false);
            toned(
                adjustments::with_band(c, whites, most, one, false),
                adjustments::with_band(d, whites, most, one, false),
                600,
                3234,
                9394,
                2688,
                3844,
            )
        }),
{
    let (half, most, one) = (
        Single { bits: 0x3f00_0000 },
        Single { bits: 0x3f40_0000 },
        Single { bits: 0x3f80_0000 },
    );
    let (q, g, p) = (quarter(), grain(), whole());
    drift::lemma_measures();
    bounded::lemma_fractions();
    drift::lemma_ends();
    assert(band_edges(half, one, 2, 4) && band_edges(most, one, 3, 4));
    lemma_highlights(c, d, highlights);
    let r = adjustments::with_band(c, highlights, half, one, false);
    let s = adjustments::with_band(d, highlights, half, one, false);
    lemma_below_whites(r);
    lemma_below_whites(s);
    lemma_short(r, whites, most, one, 3, 4);
    lemma_short(s, whites, most, one, 3, 4);
    lemma_same_toned(
        r,
        s,
        adjustments::with_band(r, whites, most, one, false),
        adjustments::with_band(s, whites, most, one, false),
        600,
        3234,
        9394,
        2688,
        3844,
    );
}

/// Such a color does not reach the whites.
proof fn lemma_below_whites(c: [Single; 3])
    requires
        all_lie(c, 600),
        low(c, 600),
    ensures
        bounded::all_within(c, 11),
        units_of(adjustments::luma(c)) <= 3 * quarter(),
{
    let (q, g, p) = (quarter(), grain(), whole());
    drift::lemma_measures();
    tones::lemma_lie_within(c, 600);
    bounded::lemma_luma(c, 11);
    let (l, all) = (units_of(adjustments::luma(c)), mixed(c));
    assert(1000 * l <= 600 * p + 50000 * g) by (nonlinear_arith)
        requires
            2 * (l * p) <= 2 * all + (99 * g) * p,
            1000 * all <= 600 * (p * p),
            p > 0,
            g > 0,
    {
        assert((2000 * l) * p <= (1200 * p + 100000 * g) * p);
    }
}

/// The highlights over colors that the dark bands left.
proof fn lemma_highlights(c: [Single; 3], d: [Single; 3], amount: Single)
    requires
        toned(c, d, 400, 2484, 7210, 2573, 3092),
        low(c, 519),
        low(d, 519),
        within(amount, -4, 4),
    ensures
        ({
            let (half, one) = (Single { bits: 0x3f00_0000 }, Single { bits: 0x3f80_0000 });
            let r = adjustments::with_band(c, amount, half, one, false);
            let s = adjustments::with_band(d, amount, half, one, false);
            &&& toned(r, s, 600, 3234, 9394, 2688, 3844)
            &&& low(r, 600)
            &&& low(s, 600)
        }),
{
    let (half, one) = (Single { bits: 0x3f00_0000 }, Single { bits: 0x3f80_0000 });
    drift::lemma_measures();
    bounded::lemma_fractions();
    drift::lemma_ends();
    assert(band_edges(half, one, 2, 4));
    if adjustments::active(amount) {
        tones::lemma_lie_within(c, 400);
        tones::lemma_lie_within(d, 400);
        tones::lemma_lumas(c, d, 11, 2484);
        let (x, y) = (adjustments::luma(c), adjustments::luma(d));
        tones::lemma_places(half, one, 2, 4, x, y, 2583, 5184);
        lemma_edge(c, amount, 400);
        lemma_edge(d, amount, 400);
        lemma_curves_low(place(half, one, x), place(half, one, y), 5184, 1343);
        tones::lemma_weights(c, d, amount, half, one, false, 2, 4, 400, 2484, 5184, 1343, 690);
        let w = band_weight(c, amount, half, one, false);
        let v = band_weight(d, amount, half, one, false);
        let target = band_target(amount);
        tones::lemma_step(c, d, target, w, v, 400, 2484, 7210, 2573, 3092, 690, 3844);
        lemma_little(c, target, w, 400);
        lemma_little(d, target, v, 400);
        assert(adjustments::with_band(c, amount, half, one, false) == all_toward(c, target, w));
        assert(adjustments::with_band(d, amount, half, one, false) == all_toward(d, target, v));
    } else {
        tones::lemma_looser(c, d, 400, 2484, 7210, 2573, 3092, 600, 3234, 9394, 2688, 3844);
        let pp = whole() * whole();
        assert(519 * pp <= 600 * pp) by (nonlinear_arith)
            requires
                pp == whole() * whole(),
        ;
    }
}

/// A color that is not bright, after the dark bands.
proof fn lemma_dark_both(c: [Single; 3], blacks: Single, shadows: Single)
    requires
        all_lie(c, 0),
        low(c, 501),
        within(blacks, -4, 4),
        within(shadows, -4, 4),
    ensures
        ({
            let (zero, quart, half) = (
                Single { bits: 0 },
                Single { bits: 0x3e80_0000 },
                Single { bits: 0x3f00_0000 },
            );
            let r = adjustments::with_band(c, blacks, zero, quart, true);
            all_lie(r, 200) ==> low(adjustments::with_band(r, shadows, zero, half, true), 519)
        }),
{
    let (zero, quart, half) = (
        Single { bits: 0 },
        Single { bits: 0x3e80_0000 },
        Single { bits: 0x3f00_0000 },
    );
    drift::lemma_measures();
    bounded::lemma_fractions();
    drift::lemma_ends();
    assert(0 * quarter() == 0);
    assert(band_edges(zero, quart, 0, 1) && band_edges(zero, half, 0, 2));
    lemma_dark_low(c, blacks, zero, quart, 1, 0, 501, 96, 513);
    let r = adjustments::with_band(c, blacks, zero, quart, true);
    if all_lie(r, 200) {
        lemma_dark_low(r, shadows, zero, half, 2, 200, 513, 144, 519);
    }
}

/// The four bands over two colors that are close.
pub(crate) proof fn lemma_tones(c: [Single; 3], d: [Single; 3], adjust: [[Single; 4]; 4])
    requires
        agreement::alike(c, d, -2, 10, 110),
        bounded::unit_range(adjust),
    ensures
        tones::through(
            adjustments::with_tones(c, adjust[1][2], adjust[1][0], adjust[0][3], adjust[1][1]),
            adjustments::with_tones(d, adjust[1][2], adjust[1][0], adjust[0][3], adjust[1][1]),
        ),
{
    let (q, g, p) = (quarter(), grain(), whole());
    drift::lemma_measures();
    drift::lemma_control(adjust[1][2]);
    drift::lemma_control(adjust[1][0]);
    drift::lemma_control(adjust[0][3]);
    drift::lemma_control(adjust[1][1]);
    tones::lemma_entry(c, d);
    let (x, y) = (units_of(adjustments::luma(c)), units_of(adjustments::luma(d)));
    if x >= 2 * q && y >= 2 * q {
        lemma_bright_colors(c, d, adjust[1][2], adjust[1][0], adjust[0][3], adjust[1][1]);
    } else {
        lemma_start_low(c, d);
        lemma_dark_colors(c, d, adjust[1][2], adjust[1][0], adjust[0][3], adjust[1][1]);
    }
}

/// Two colors of which one has a luma below a half.
proof fn lemma_start_low(c: [Single; 3], d: [Single; 3])
    requires
        toned(c, d, 0, 110, 220, 220, 0),
        units_of(adjustments::luma(c)) < 2 * quarter() || units_of(adjustments::luma(d)) < 2
            * quarter(),
    ensures
        low(c, 501),
        low(d, 501),
{
    let (q, g, p) = (quarter(), grain(), whole());
    let (pp, gp) = (p * p, g * p);
    drift::lemma_measures();
    tones::lemma_lie_within(c, 0);
    tones::lemma_lie_within(d, 0);
    bounded::lemma_luma(c, 11);
    bounded::lemma_luma(d, 11);
    assert(pp == 0x400_0000 * gp && gp > 0) by (nonlinear_arith)
        requires
            pp == p * p,
            gp == g * p,
            p == 4 * q,
            q == 0x100_0000 * g,
            g > 0,
    ;
    assert((99 * g) * p == 99 * gp && (110 * g) * p == 110 * gp) by (nonlinear_arith)
        requires
            gp == g * p,
    ;
    let (x, y) = (units_of(adjustments::luma(c)), units_of(adjustments::luma(d)));
    assert(x < 2 * q ==> 2 * (x * p) <= pp) by (nonlinear_arith)
        requires
            p == 4 * q,
            pp == p * p,
            q > 0,
    ;
    assert(y < 2 * q ==> 2 * (y * p) <= pp) by (nonlinear_arith)
        requires
            p == 4 * q,
            pp == p * p,
            q > 0,
    ;
}

/// Colors that the dark bands leave alone.
proof fn lemma_bright_colors(
    c: [Single; 3],
    d: [Single; 3],
    blacks: Single,
    shadows: Single,
    highlights: Single,
    whites: Single,
)
    requires
        toned(c, d, 0, 110, 220, 220, 0),
        units_of(adjustments::luma(c)) >= 2 * quarter(),
        units_of(adjustments::luma(d)) >= 2 * quarter(),
        within(blacks, -4, 4),
        within(shadows, -4, 4),
        within(highlights, -4, 4),
        within(whites, -4, 4),
    ensures
        tones::through(
            adjustments::with_tones(c, blacks, shadows, highlights, whites),
            adjustments::with_tones(d, blacks, shadows, highlights, whites),
        ),
{
    let (zero, quart, half) = (
        Single { bits: 0 },
        Single { bits: 0x3e80_0000 },
        Single { bits: 0x3f00_0000 },
    );
    lemma_bright_stays(c, blacks, shadows);
    lemma_bright_stays(d, blacks, shadows);
    let r = adjustments::with_band(c, blacks, zero, quart, true);
    let r = adjustments::with_band(r, shadows, zero, half, true);
    let s = adjustments::with_band(d, blacks, zero, quart, true);
    let s = adjustments::with_band(s, shadows, zero, half, true);
    lemma_same_toned(c, d, r, s, 0, 110, 220, 220, 0);
    tones::lemma_looser(r, s, 0, 110, 220, 220, 0, 400, 110, 220, 220, 0);
    tones::lemma_bright(r, s, highlights, whites);
}

/// Colors that the dark bands move.
proof fn lemma_dark_colors(
    c: [Single; 3],
    d: [Single; 3],
    blacks: Single,
    shadows: Single,
    highlights: Single,
    whites: Single,
)
    requires
        toned(c, d, 0, 110, 220, 220, 0),
        low(c, 501),
        low(d, 501),
        within(blacks, -4, 4),
        within(shadows, -4, 4),
        within(highlights, -4, 4),
        within(whites, -4, 4),
    ensures
        tones::through(
            adjustments::with_tones(c, blacks, shadows, highlights, whites),
            adjustments::with_tones(d, blacks, shadows, highlights, whites),
        ),
{
    let (zero, quart, half) = (
        Single { bits: 0 },
        Single { bits: 0x3e80_0000 },
        Single { bits: 0x3f00_0000 },
    );
    lemma_dark_both(c, blacks, shadows);
    lemma_dark_both(d, blacks, shadows);
    tones::lemma_dark(c, d, blacks, shadows);
    let r = adjustments::with_band(c, blacks, zero, quart, true);
    let r = adjustments::with_band(r, shadows, zero, half, true);
    let s = adjustments::with_band(d, blacks, zero, quart, true);
    let s = adjustments::with_band(s, shadows, zero, half, true);
    lemma_after_dark(r, s, highlights, whites);
    tones::lemma_looser(
        adjustments::with_tones(c, blacks, shadows, highlights, whites),
        adjustments::with_tones(d, blacks, shadows, highlights, whites),
        600,
        3234,
        9394,
        2688,
        3844,
        800,
        3234,
        9394,
        2688,
        3844,
    );
}

} // verus!
