//! Two colors that are close to one another, side by side through the
//! adjustments.

use crate::color::adjustments;
use crate::color::adjustments::Taken;
use crate::color::bounded;
use crate::color::drift;
use crate::color::drift::{grain, pair, quarter, units_of, whole, within};
use crate::color::hues;
use crate::color::lut::identity;
use crate::color::lut::identity::{amount, close, plain, slip, unity};
use crate::color::middle;
use crate::color::scale;
use crate::color::tones;
use crate::ieee::grid;
use crate::ieee::grid::Format;
use crate::ieee::laws;
use crate::ieee::single::Single;
use vstd::prelude::*;

verus! {

/// Two colors whose channels are from `lo` to `hi` quarters and no more than `k`
/// grains apart.
pub open spec fn alike(c: [Single; 3], d: [Single; 3], lo: int, hi: int, k: int) -> bool {
    pair(c[0], d[0], lo, hi, k) && pair(c[1], d[1], lo, hi, k) && pair(c[2], d[2], lo, hi, k)
}

/// Wider bounds hold too.
pub(crate) proof fn lemma_looser(x: Single, y: Single, lo: int, hi: int, k: int, low: int, high: int, n: int)
    requires
        pair(x, y, lo, hi, k),
        low <= lo,
        hi <= high,
        k <= n,
    ensures
        pair(x, y, low, high, n),
{
    let (q, g) = (quarter(), grain());
    drift::lemma_measures();
    assert(low * q <= lo * q) by (nonlinear_arith)
        requires
            low <= lo,
            q > 0,
    ;
    assert(hi * q <= high * q) by (nonlinear_arith)
        requires
            hi <= high,
            q > 0,
    ;
    assert(k * g <= n * g) by (nonlinear_arith)
        requires
            k <= n,
            g > 0,
    ;
}

proof fn lemma_looser_colors(
    c: [Single; 3],
    d: [Single; 3],
    lo: int,
    hi: int,
    k: int,
    low: int,
    high: int,
    n: int,
)
    requires
        alike(c, d, lo, hi, k),
        low <= lo,
        hi <= high,
        k <= n,
    ensures
        alike(c, d, low, high, n),
{
    lemma_looser(c[0], d[0], lo, hi, k, low, high, n);
    lemma_looser(c[1], d[1], lo, hi, k, low, high, n);
    lemma_looser(c[2], d[2], lo, hi, k, low, high, n);
}

/// What dividing by one whole leaves of a distance.
pub(crate) proof fn lemma_whole_out(x: int, y: int, k: int)
    requires
        close(x * whole(), y * whole(), (k * grain()) * whole()),
    ensures
        close(x, y, k * grain()),
{
    let (p, e) = (whole(), k * grain());
    drift::lemma_measures();
    assert(x - y <= e) by (nonlinear_arith)
        requires
            x * p <= y * p + e * p,
            p > 0,
    ;
    assert(y - x <= e) by (nonlinear_arith)
        requires
            x * p >= y * p - e * p,
            p > 0,
    ;
}

/// Two products of factors that are close.
pub(crate) proof fn lemma_products(
    x: Single,
    y: Single,
    v: Single,
    w: Single,
    a: int,
    b: int,
    j: int,
    k: int,
    m: int,
    n: int,
)
    requires
        within(x, -a, a),
        within(y, -a, a),
        close(units_of(x), units_of(y), j * grain()),
        within(v, -b, b),
        within(w, -b, b),
        close(units_of(v), units_of(w), k * grain()),
        0 <= a,
        0 <= b,
        0 <= j,
        0 <= k,
        a * b <= 4 * m,
        0 <= m < 0x10_0000,
        a * k + b * j + 8 * (m + 1) <= 4 * n,
    ensures
        pair(x.times(v), y.times(w), -m, m, n),
{
    let (q, g, p) = (quarter(), grain(), whole());
    drift::lemma_measures();
    drift::lemma_multiplied(x, v, a, b, m);
    drift::lemma_multiplied(y, w, a, b, m);
    let (ux, uy, uv, uw) = (units_of(x), units_of(y), units_of(v), units_of(w));
    let (s, t) = (units_of(x.times(v)), units_of(y.times(w)));
    assert(-a * q == -(a * q) && -b * q == -(b * q)) by (nonlinear_arith);
    assert(ux * uv - uy * uw == ux * (uv - uw) + (ux - uy) * uw) by (nonlinear_arith);
    assert(-((a * q) * (k * g)) <= ux * (uv - uw) <= (a * q) * (k * g)) by (nonlinear_arith)
        requires
            -(a * q) <= ux <= a * q,
            -(k * g) <= uv - uw <= k * g,
    ;
    assert(-((j * g) * (b * q)) <= (ux - uy) * uw <= (j * g) * (b * q)) by (nonlinear_arith)
        requires
            -(b * q) <= uw <= b * q,
            -(j * g) <= ux - uy <= j * g,
    ;
    assert((a * q) * (k * g) + (j * g) * (b * q) + 2 * (((m + 1) * g) * p) <= (n * g) * p)
        by (nonlinear_arith)
        requires
            a * k + b * j + 8 * (m + 1) <= 4 * n,
            p == 4 * q,
            q > 0,
            g > 0,
    {
        let e = g * q;
        assert((a * q) * (k * g) == (a * k) * e);
        assert((j * g) * (b * q) == (b * j) * e);
        assert(((m + 1) * g) * p == (4 * (m + 1)) * e);
        assert((n * g) * p == (4 * n) * e);
        assert((a * k) * e + (b * j) * e + 2 * ((4 * (m + 1)) * e) == (a * k + b * j + 8 * (m + 1)) * e);
        assert((a * k + b * j + 8 * (m + 1)) * e <= (4 * n) * e);
    }
    lemma_whole_out(s, t, n);
}

/// Two values times one gain.
proof fn lemma_lifts(
    x: Single,
    y: Single,
    gain: Single,
    lo: int,
    hi: int,
    b: int,
    k: int,
    low: int,
    high: int,
    m: int,
    n: int,
)
    requires
        pair(x, y, lo, hi, k),
        within(gain, 0, b),
        lo <= 0 <= hi,
        0 <= b,
        0 <= k,
        4 * low <= lo * b,
        hi * b <= 4 * high,
        -m <= low <= high <= m < 0x10_0000,
        b * k + 8 * (m + 1) <= 4 * n,
    ensures
        pair(x.times(gain), y.times(gain), low, high, n),
{
    let (q, g, p) = (quarter(), grain(), whole());
    drift::lemma_measures();
    drift::lemma_scaled(x, gain, lo, hi, b, low, high, m);
    drift::lemma_scaled(y, gain, lo, hi, b, low, high, m);
    let (ux, uy, ug) = (units_of(x), units_of(y), units_of(gain));
    let (s, t) = (units_of(x.times(gain)), units_of(y.times(gain)));
    assert(0 * q == 0);
    assert(ux * ug - uy * ug == (ux - uy) * ug) by (nonlinear_arith);
    assert(-((k * g) * (b * q)) <= (ux - uy) * ug <= (k * g) * (b * q)) by (nonlinear_arith)
        requires
            0 <= ug <= b * q,
            -(k * g) <= ux - uy <= k * g,
            0 <= k * g,
    ;
    assert(0 <= k * g) by (nonlinear_arith)
        requires
            0 <= k,
            g > 0,
    ;
    assert((k * g) * (b * q) + 2 * (((m + 1) * g) * p) <= (n * g) * p) by (nonlinear_arith)
        requires
            b * k + 8 * (m + 1) <= 4 * n,
            p == 4 * q,
            q > 0,
            g > 0,
    {
        let e = g * q;
        assert((k * g) * (b * q) == (b * k) * e);
        assert(((m + 1) * g) * p == (4 * (m + 1)) * e);
        assert((n * g) * p == (4 * n) * e);
        assert((b * k) * e + 2 * ((4 * (m + 1)) * e) == (b * k + 8 * (m + 1)) * e);
        assert((b * k + 8 * (m + 1)) * e <= (4 * n) * e);
    }
    lemma_whole_out(s, t, n);
}

/// Luminance.
proof fn lemma_luminance(c: [Single; 3], d: [Single; 3], luminance: Single)
    requires
        alike(c, d, 0, 4, 9),
        within(luminance, -4, 4),
    ensures
        alike(
            adjustments::with_luminance(c, luminance),
            adjustments::with_luminance(d, luminance),
            0,
            6,
            28,
        ),
{
    let gain = Single::one().plus(luminance.times(Single { bits: adjustments::LUMINANCE_GAIN }));
    bounded::lemma_luminance_gain(luminance);
    drift::lemma_measures();
    assert(within(gain, 0, 6)) by {
        assert(0 * quarter() <= 2 * quarter());
    }
    lemma_lifts(c[0], d[0], gain, 0, 4, 6, 9, 0, 6, 6, 28);
    lemma_lifts(c[1], d[1], gain, 0, 4, 6, 9, 0, 6, 6, 28);
    lemma_lifts(c[2], d[2], gain, 0, 4, 6, 9, 0, 6, 6, 28);
    lemma_looser_colors(c, d, 0, 4, 9, 0, 6, 28);
}

proof fn lemma_pivots(x: Single, y: Single, gain: Single)
    requires
        pair(x, y, 0, 6, 28),
        within(gain, 0, 8),
    ensures
        pair(adjustments::pivoted(x, gain), adjustments::pivoted(y, gain), -2, 10, 110),
{
    let half = Single { bits: adjustments::CONTRAST_PIVOT };
    drift::lemma_measures();
    bounded::lemma_fractions();
    assert(0 * quarter() == 0);
    drift::lemma_minus(x, half, -2, 4, 4);
    drift::lemma_minus(y, half, -2, 4, 4);
    let (s, t) = (x.minus(half), y.minus(half));
    assert(pair(s, t, -2, 4, 36));
    lemma_lifts(s, t, gain, -2, 4, 8, 36, -4, 8, 8, 90);
    drift::lemma_plus(s.times(gain), half, -2, 10, 10);
    drift::lemma_plus(t.times(gain), half, -2, 10, 10);
}

/// Contrast.
proof fn lemma_contrast(c: [Single; 3], d: [Single; 3], contrast: Single)
    requires
        alike(c, d, 0, 6, 28),
        within(contrast, -4, 4),
    ensures
        alike(
            adjustments::with_contrast(c, contrast),
            adjustments::with_contrast(d, contrast),
            -2,
            10,
            110,
        ),
{
    let gain = Single::one().plus(contrast);
    bounded::lemma_gain(contrast);
    lemma_pivots(c[0], d[0], gain);
    lemma_pivots(c[1], d[1], gain);
    lemma_pivots(c[2], d[2], gain);
    lemma_looser_colors(c, d, 0, 6, 28, -2, 10, 110);
}

/// The cube of the smoothstep climbs no more than half as fast again as its
/// argument.
pub(crate) proof fn lemma_cubes(u: int, v: int, p: int, e: int)
    requires
        0 <= u <= p,
        0 <= v <= p,
        -e <= u - v <= e,
    ensures
        -(3 * (e * (p * p))) <= 2 * ((u * u) * (3 * p - 2 * u)) - 2 * ((v * v) * (3 * p - 2 * v)) <= 3 * (
        e * (p * p)),
{
    let slope = 3 * p * (u + v) - 2 * (u * u + u * v + v * v);
    assert((u * u) * (3 * p - 2 * u) - (v * v) * (3 * p - 2 * v) == (u - v) * slope) by (nonlinear_arith)
        requires
            slope == 3 * p * (u + v) - 2 * (u * u + u * v + v * v),
    ;
    assert(0 <= slope) by (nonlinear_arith)
        requires
            0 <= u <= p,
            0 <= v <= p,
            slope == 3 * p * (u + v) - 2 * (u * u + u * v + v * v),
    {
        assert(u * u <= p * u);
        assert(v * v <= p * v);
        assert(u * v <= p * v);
        assert(u * v <= p * u);
        assert(3 * p * (u + v) == 3 * (p * u) + 3 * (p * v));
    }
    assert(2 * slope <= 3 * (p * p)) by (nonlinear_arith)
        requires
            slope == 3 * p * (u + v) - 2 * (u * u + u * v + v * v),
    {
        let (a, b) = (2 * u - p, 2 * v - p);
        assert(a * a + a * b + b * b >= 0) by {
            assert(2 * (a * a + a * b + b * b) == (a + b) * (a + b) + a * a + b * b);
            assert((a + b) * (a + b) >= 0);
            assert(a * a >= 0);
            assert(b * b >= 0);
        }
        assert(a * a + a * b + b * b == 4 * (u * u + u * v + v * v) - 6 * p * (u + v) + 3 * (p * p));
    }
    assert(-(3 * (e * (p * p))) <= 2 * ((u - v) * slope) <= 3 * (e * (p * p))) by (nonlinear_arith)
        requires
            -e <= u - v <= e,
            0 <= slope,
            2 * slope <= 3 * (p * p),
            0 <= e,
    {
        assert((u - v) * slope <= e * slope);
        assert((u - v) * slope >= -(e * slope));
        assert(e * (2 * slope) <= e * (3 * (p * p)));
    }
}

/// Two smoothsteps over places that are close.
pub(crate) proof fn lemma_curves(s: Single, t: Single, k: int, n: int)
    requires
        pair(s, t, 0, 4, k),
        0 <= k,
        3 * k + 196 <= 2 * n,
    ensures
        pair(bounded::curve(s), bounded::curve(t), 0, 5, n),
{
    let (g, p) = (grain(), whole());
    drift::lemma_measures();
    assert(0 * quarter() == 0);
    bounded::lemma_curve(s);
    bounded::lemma_curve(t);
    let (u, v) = (units_of(s), units_of(t));
    let (x, y) = (units_of(bounded::curve(s)), units_of(bounded::curve(t)));
    lemma_cubes(u, v, p, k * g);
    let a = (u * u) * (3 * p - 2 * u);
    let b = (v * v) * (3 * p - 2 * v);
    let z = p * p;
    assert(z > 0) by (nonlinear_arith)
        requires
            z == p * p,
            p > 0,
    ;
    assert(3 * ((k * g) * z) + 4 * ((49 * g) * z) <= 2 * ((n * g) * z)) by (nonlinear_arith)
        requires
            3 * k + 196 <= 2 * n,
            g > 0,
            z > 0,
    {
        let e = g * z;
        assert((k * g) * z == k * e);
        assert((49 * g) * z == 49 * e);
        assert((n * g) * z == n * e);
        assert((3 * k + 196) * e <= (2 * n) * e);
    }
    assert(-((n * g) * z) <= x * z - y * z <= (n * g) * z);
    assert(x - y <= n * g) by (nonlinear_arith)
        requires
            x * z - y * z <= (n * g) * z,
            z > 0,
    ;
    assert(y - x <= n * g) by (nonlinear_arith)
        requires
            y * z - x * z <= (n * g) * z,
            z > 0,
    ;
}

/// A channel spread away from a luma is off by little from the exact mix.
pub(crate) proof fn lemma_spread(v: Single, l: Single, gain: Single, a: int)
    requires
        within(v, -a, a),
        within(l, -(a + 1), a + 1),
        within(gain, 0, 8),
        0 <= a < 0x1_0000,
    ensures
        within(adjustments::spread(v, l, gain), -(5 * a + 3), 5 * a + 3),
        close(
            units_of(adjustments::spread(v, l, gain)) * whole(),
            units_of(l) * whole() + (units_of(v) - units_of(l)) * units_of(gain),
            ((13 * a + 8) * grain()) * whole(),
        ),
{
    let (q, g, p) = (quarter(), grain(), whole());
    drift::lemma_measures();
    let n = 2 * a + 1;
    assert(-a * q == -(a * q) && -(a + 1) * q == -((a + 1) * q)) by (nonlinear_arith);
    assert(-n * q == -(n * q) && n * q == a * q + (a + 1) * q) by (nonlinear_arith)
        requires
            n == a + (a + 1),
    ;
    drift::lemma_minus(v, l, -n, n, n);
    let t = v.minus(l);
    drift::lemma_scaled(t, gain, -n, n, 8, -(2 * n), 2 * n, 2 * n);
    let m = 5 * a + 3;
    assert(-m * q == -(m * q) && m * q == (2 * n) * q + (a + 1) * q && -(2 * n) * q == -((2 * n) * q))
        by (nonlinear_arith)
        requires
            m == 2 * n + (a + 1),
    ;
    let s = t.times(gain);
    drift::lemma_plus(l, s, -m, m, m);
    let r = units_of(l.plus(s));
    let (uv, ul, ut, ug, us) = (units_of(v), units_of(l), units_of(t), units_of(gain), units_of(s));
    let e = ut - (uv - ul);
    assert(ut * ug == (uv - ul) * ug + e * ug) by (nonlinear_arith)
        requires
            ut == uv - ul + e,
    ;
    assert(0 * q == 0);
    assert(-((2 * (n * g)) * p) <= e * ug <= (2 * (n * g)) * p) by (nonlinear_arith)
        requires
            -(n * g) <= e <= n * g,
            0 <= ug <= 2 * p,
            0 <= n * g,
    {
        assert(-((n * g) * ug) <= e * ug <= (n * g) * ug);
        assert((n * g) * ug <= (n * g) * (2 * p));
        assert((n * g) * (2 * p) == (2 * (n * g)) * p);
    }
    assert(0 <= n * g) by (nonlinear_arith)
        requires
            n >= 0,
            g > 0,
    ;
    assert(-((m * g) * p) <= r * p - ul * p - us * p <= (m * g) * p) by (nonlinear_arith)
        requires
            -(m * g) <= r - (ul + us) <= m * g,
            p > 0,
    ;
    assert((2 * (n * g)) * p + ((2 * n + 1) * g) * p + (m * g) * p <= ((13 * a + 8) * g) * p)
        by (nonlinear_arith)
        requires
            2 * n + (2 * n + 1) + m <= 13 * a + 8,
            g > 0,
            p > 0,
    {
        let e = g * p;
        assert((2 * (n * g)) * p == (2 * n) * e);
        assert(((2 * n + 1) * g) * p == (2 * n + 1) * e);
        assert((m * g) * p == m * e);
        assert(((13 * a + 8) * g) * p == (13 * a + 8) * e);
        assert((2 * n + (2 * n + 1) + m) * e <= (13 * a + 8) * e);
    }
}

/// The largest channel of a color, and the smallest.
pub open spec fn most(c: [Single; 3]) -> Single {
    c[0].greater_of(c[1]).greater_of(c[2])
}

pub open spec fn least(c: [Single; 3]) -> Single {
    c[0].lesser_of(c[1]).lesser_of(c[2])
}

/// What the two are, in units.
pub(crate) proof fn lemma_extremes(c: [Single; 3], a: int)
    requires
        bounded::all_within(c, a),
    ensures
        within(most(c), -a, a),
        within(least(c), -a, a),
        units_of(least(c)) <= units_of(c[0]) <= units_of(most(c)),
        units_of(least(c)) <= units_of(c[1]) <= units_of(most(c)),
        units_of(least(c)) <= units_of(c[2]) <= units_of(most(c)),
        most(c) == c[0] || most(c) == c[1] || most(c) == c[2],
        least(c) == c[0] || least(c) == c[1] || least(c) == c[2],
{
    drift::lemma_order(c[0], c[1]);
    drift::lemma_order(c[1], c[0]);
    let (x, y) = (c[0].greater_of(c[1]), c[0].lesser_of(c[1]));
    drift::lemma_order(x, c[2]);
    drift::lemma_order(c[2], y);
}

/// How far the exact gain of a vibrance is from the one that is used.
pub(crate) proof fn lemma_gain_error(vivid: Single, vibrance: Single)
    requires
        within(vivid, 0, 4),
        within(vibrance, -4, 4),
    ensures
        ({
            let one = Single::one();
            let gain = one.plus(vibrance.times(one.minus(vivid)));
            &&& within(gain, 0, 8)
            &&& close(
                units_of(gain) * whole(),
                whole() * whole() + units_of(vibrance) * (whole() - units_of(vivid)),
                (17 * grain()) * whole(),
            )
        }),
{
    let (q, g, p) = (quarter(), grain(), whole());
    let one = Single::one();
    drift::lemma_measures();
    drift::lemma_ends();
    assert(0 * q == 0);
    drift::lemma_minus(one, vivid, 0, 4, 4);
    let rest = one.minus(vivid);
    drift::lemma_multiplied(vibrance, rest, 4, 4, 4);
    let push = vibrance.times(rest);
    drift::lemma_plus(one, push, 0, 8, 8);
    let (v, r, s) = (units_of(vibrance), units_of(rest), units_of(push));
    let e = r - (p - units_of(vivid));
    let z = units_of(one.plus(push));
    assert(v * r == v * (p - units_of(vivid)) + v * e) by (nonlinear_arith)
        requires
            r == p - units_of(vivid) + e,
    ;
    assert(-((4 * g) * p) <= v * e <= (4 * g) * p) by (nonlinear_arith)
        requires
            -p <= v <= p,
            -(4 * g) <= e <= 4 * g,
    ;
    assert(-((8 * g) * p) <= z * p - p * p - s * p <= (8 * g) * p) by (nonlinear_arith)
        requires
            -(8 * g) <= z - (p + s) <= 8 * g,
            p > 0,
    ;
    assert((4 * g) * p + (5 * g) * p + (8 * g) * p == (17 * g) * p) by (nonlinear_arith);
}

/// Two gains of a vibrance, and how far each is from one.
pub(crate) proof fn lemma_gains(v: Single, w: Single, vibrance: Single, k: int)
    requires
        pair(v, w, 0, 4, k),
        0 <= k,
        within(vibrance, -4, 4),
    ensures
        ({
            let one = Single::one();
            let x = units_of(one.plus(vibrance.times(one.minus(v))));
            let y = units_of(one.plus(vibrance.times(one.minus(w))));
            &&& close(x, y, (k + 34) * grain())
            &&& close(x, whole(), whole() - units_of(v) + 17 * grain())
        }),
{
    let (g, p) = (grain(), whole());
    let one = Single::one();
    drift::lemma_measures();
    assert(0 * quarter() == 0);
    lemma_gain_error(v, vibrance);
    lemma_gain_error(w, vibrance);
    let x = units_of(one.plus(vibrance.times(one.minus(v))));
    let y = units_of(one.plus(vibrance.times(one.minus(w))));
    let (a, b, c) = (units_of(v), units_of(w), units_of(vibrance));
    assert(c * (p - a) - c * (p - b) == c * (b - a)) by (nonlinear_arith);
    assert(-((k * g) * p) <= c * (b - a) <= (k * g) * p) by (nonlinear_arith)
        requires
            -p <= c <= p,
            -(k * g) <= b - a <= k * g,
    ;
    assert((k * g) * p + 2 * ((17 * g) * p) == ((k + 34) * g) * p) by (nonlinear_arith);
    lemma_whole_out(x, y, k + 34);
    assert(-((p - a) * p) <= c * (p - a) <= (p - a) * p) by (nonlinear_arith)
        requires
            -p <= c <= p,
            0 <= p - a,
    ;
    assert(x - p <= p - a + 17 * g) by (nonlinear_arith)
        requires
            x * p <= p * p + (p - a) * p + (17 * g) * p,
            p > 0,
    ;
    assert(p - x <= p - a + 17 * g) by (nonlinear_arith)
        requires
            x * p >= p * p - (p - a) * p - (17 * g) * p,
            p > 0,
    ;
}

/// Vignette.
proof fn lemma_vignette(
    c: [Single; 3],
    d: [Single; 3],
    vignette: Single,
    reach: Single,
    corner: Single,
)
    requires
        alike(c, d, -208, 208, 32410),
        within(vignette, -4, 4),
        adjustments::active(vignette) ==> !reach.over(corner).nan(),
    ensures
        alike(
            adjustments::with_vignette(c, vignette, reach, corner),
            adjustments::with_vignette(d, vignette, reach, corner),
            -416,
            416,
            65654,
        ),
{
    lemma_looser_colors(c, d, -208, 208, 32410, -416, 416, 65654);
    if adjustments::active(vignette) {
        bounded::lemma_vignette_gain(vignette, reach, corner);
        let mask = adjustments::smoothstep(
            Single { bits: adjustments::VIGNETTE_OUTER },
            Single { bits: adjustments::VIGNETTE_INNER },
            reach.over(corner),
        );
        let gain = Single::one().plus(vignette.times(Single::one().minus(mask)));
        lemma_lifts(c[0], d[0], gain, -208, 208, 8, 32410, -416, 416, 416, 65654);
        lemma_lifts(c[1], d[1], gain, -208, 208, 8, 32410, -416, 416, 416, 65654);
        lemma_lifts(c[2], d[2], gain, -208, 208, 8, 32410, -416, 416, 416, 65654);
    }
}

/// A color on two pixel scales, as the stages get it.
proof fn lemma_bases(v: Single, max_pixel_value: Single)
    requires
        plain(v),
        v.at_most(Single::one()),
        Single::one().at_most(max_pixel_value),
        laws::is_finite(max_pixel_value),
    ensures
        pair(v.times(max_pixel_value).over(max_pixel_value), v.over(Single::one()), 0, 4, 9),
{
    reveal(units_of);
    let back = v.times(max_pixel_value).over(max_pixel_value);
    drift::lemma_measures();
    drift::lemma_ends();
    identity::lemma_sizes();
    assert(0 * quarter() == 0);
    assert(slip() == 4 * grain());
    scale::law_scaling_keeps_the_color(v, max_pixel_value);
    scale::lemma_over_one(v);
    assert(laws::is_finite(v));
    drift::lemma_order(v, Single::one());
    identity::lemma_finite(back);
    assert(grid::units(Format::Single, 0) == 0);
    assert(units_of(back) == amount(back) && units_of(v) == amount(v));
}

/// What is left in the end of two channels that are close.
proof fn lemma_ends_alike(x: Single, y: Single, max_pixel_value: Single)
    requires
        pair(x, y, -416, 416, 65654),
        Single::one().at_most(max_pixel_value),
        laws::is_finite(max_pixel_value),
    ensures
        ({
            let wide = adjustments::finished(x, max_pixel_value);
            let narrow = adjustments::finished(y, Single::one());
            let off = amount(wide) * unity() - amount(narrow) * amount(max_pixel_value);
            &&& plain(wide)
            &&& plain(narrow)
            &&& -(unity() * amount(max_pixel_value)) < 1000 * off < unity() * amount(max_pixel_value)
        }),
{
    reveal(units_of);
    let one = Single::one();
    let (zero, m) = (Single::zero(), max_pixel_value);
    drift::lemma_measures();
    drift::lemma_ends();
    identity::lemma_sizes();
    assert(slip() == 4 * grain());
    drift::lemma_clamped(x, y, 65654);
    let (s, t) = (x.clamped(zero, one), y.clamped(zero, one));
    assert(grid::units(Format::Single, 0) == 0);
    assert(0 * quarter() == 0);
    lemma_plain(s);
    lemma_plain(t);
    laws::law_times_one(t);
    scale::lemma_on_scale(s, m);
    let (a, b, w, g) = (amount(s), amount(t), amount(m), grain());
    let z = amount(s.times(m));
    drift::lemma_order(one, m);
    lemma_plain(m);
    assert(w >= unity());
    assert(-((65654 * g) * w) <= a * w - b * w <= (65654 * g) * w) by (nonlinear_arith)
        requires
            -(65654 * g) <= a - b <= 65654 * g,
            w >= 0,
    ;
    let p = unity();
    assert(2 * (slip() * w) == (8 * g) * w) by (nonlinear_arith)
        requires
            slip() == 4 * g,
    ;
    assert(1000 * ((65654 * g) * w + (8 * g) * w) < p * w) by (nonlinear_arith)
        requires
            p == 0x400_0000 * g,
            g > 0,
            w > 0,
    {
        let e = g * w;
        assert(e > 0);
        assert((65654 * g) * w == 65654 * e);
        assert((8 * g) * w == 8 * e);
        assert((0x400_0000 * g) * w == 0x400_0000 * e);
    }
}

/// A value that is not below zero.
proof fn lemma_plain(x: Single)
    requires
        laws::is_finite(x),
        units_of(x) >= 0,
    ensures
        plain(x),
        amount(x) == units_of(x),
{
    reveal(units_of);
    let k = x.number().index as nat;
    assert(grid::units(Format::Single, 0) == 0);
    if k > 0 {
        grid::lemma_units_increase(Format::Single, 0, k);
    }
}

/// The stages up to the four bands, on two scales.
proof fn lemma_light(c: [Single; 3], d: [Single; 3], adjust: [[Single; 4]; 4])
    requires
        alike(c, d, 0, 4, 9),
        bounded::unit_range(adjust),
    ensures
        alike(
            adjustments::with_contrast(
                adjustments::with_luminance(c, adjust[0][1]),
                adjust[0][2],
            ),
            adjustments::with_contrast(
                adjustments::with_luminance(d, adjust[0][1]),
                adjust[0][2],
            ),
            -2,
            10,
            110,
        ),
{
    drift::lemma_control(adjust[0][1]);
    drift::lemma_control(adjust[0][2]);
    lemma_luminance(c, d, adjust[0][1]);
    lemma_contrast(
        adjustments::with_luminance(c, adjust[0][1]),
        adjustments::with_luminance(d, adjust[0][1]),
        adjust[0][2],
    );
}

/// The stages after the four bands, on two scales.
proof fn lemma_color(c: [Single; 3], d: [Single; 3], taken: Taken, adjust: [[Single; 4]; 4])
    requires
        tones::through(c, d),
        bounded::unit_range(adjust),
        bounded::taken_in_range(taken, adjust),
    ensures
        ({
            let c = adjustments::with_balance(c, adjust[1][3], adjust[2][0]);
            let c = adjustments::with_saturation(c, adjust[2][1]);
            let c = adjustments::with_vibrance(c, adjust[2][2]);
            let c = adjustments::with_vignette(c, adjust[2][3], taken.reach, taken.corner);
            let d = adjustments::with_balance(d, adjust[1][3], adjust[2][0]);
            let d = adjustments::with_saturation(d, adjust[2][1]);
            let d = adjustments::with_vibrance(d, adjust[2][2]);
            let d = adjustments::with_vignette(d, adjust[2][3], taken.reach, taken.corner);
            alike(c, d, -416, 416, 65654)
        }),
{
    drift::lemma_control(adjust[1][3]);
    drift::lemma_control(adjust[2][0]);
    drift::lemma_control(adjust[2][1]);
    drift::lemma_control(adjust[2][2]);
    drift::lemma_control(adjust[2][3]);
    hues::lemma_balanced(c, d, adjust[1][3], adjust[2][0]);
    let c = adjustments::with_balance(c, adjust[1][3], adjust[2][0]);
    let d = adjustments::with_balance(d, adjust[1][3], adjust[2][0]);
    hues::lemma_saturation(c, d, adjust[2][1]);
    let c = adjustments::with_saturation(c, adjust[2][1]);
    let d = adjustments::with_saturation(d, adjust[2][1]);
    hues::lemma_vibrance(c, d, adjust[2][2]);
    let c = adjustments::with_vibrance(c, adjust[2][2]);
    let d = adjustments::with_vibrance(d, adjust[2][2]);
    if adjustments::active(adjust[2][3]) {
        bounded::lemma_ratio(taken.reach, taken.corner);
    }
    lemma_vignette(c, d, adjust[2][3], taken.reach, taken.corner);
}

/// The controls do the same on every pixel scale: without an exposure, what they
/// make of a color on the scale of `max_pixel_value` is what they make of it on
/// the scale of one, times that value, but for less than a thousandth of that
/// value.
pub proof fn law_controls_agree_on_every_scale(
    unit: [Single; 4],
    px: [Single; 4],
    taken: Taken,
    adjust: [[Single; 4]; 4],
    max_pixel_value: Single,
    ch: int,
)
    requires
        0 <= ch < 3,
        forall|i: int|
            0 <= i < 3 ==> plain(#[trigger] unit[i]) && unit[i].at_most(Single::one()) && px[i]
                == unit[i].times(max_pixel_value),
        Single::one().at_most(max_pixel_value),
        laws::is_finite(max_pixel_value),
        bounded::unit_range(adjust),
        bounded::taken_in_range(taken, adjust),
        !adjustments::active(adjust[0][0]),
    ensures
        ({
            let one = Single::one();
            let wide = adjustments::finished(
                adjustments::graded(px, taken, adjust, max_pixel_value)[ch],
                max_pixel_value,
            );
            let narrow = adjustments::finished(
                adjustments::graded(unit, taken, adjust, one)[ch],
                one,
            );
            let off = amount(wide) * unity() - amount(narrow) * amount(max_pixel_value);
            &&& plain(wide)
            &&& plain(narrow)
            &&& -(unity() * amount(max_pixel_value)) < 1000 * off < unity() * amount(max_pixel_value)
        }),
{
    let one = Single::one();
    lemma_bases(unit[0], max_pixel_value);
    lemma_bases(unit[1], max_pixel_value);
    lemma_bases(unit[2], max_pixel_value);
    let c = adjustments::base(px, max_pixel_value);
    let d = adjustments::base(unit, one);
    lemma_light(c, d, adjust);
    let c = adjustments::with_contrast(adjustments::with_luminance(c, adjust[0][1]), adjust[0][2]);
    let d = adjustments::with_contrast(adjustments::with_luminance(d, adjust[0][1]), adjust[0][2]);
    middle::lemma_tones(c, d, adjust);
    let c = adjustments::with_tones(c, adjust[1][2], adjust[1][0], adjust[0][3], adjust[1][1]);
    let d = adjustments::with_tones(d, adjust[1][2], adjust[1][0], adjust[0][3], adjust[1][1]);
    lemma_color(c, d, taken, adjust);
    lemma_ends_alike(
        adjustments::graded(px, taken, adjust, max_pixel_value)[ch],
        adjustments::graded(unit, taken, adjust, one)[ch],
        max_pixel_value,
    );
}

} // verus!
