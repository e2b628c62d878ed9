//! Two close colors side by side through the four tonal bands.
//!
//! A band moves every channel the same part of the way to black or white. So the
//! mean of the channels moves by a curve of its own, and the channels keep their
//! distances from one another, scaled down. What two colors differ by is followed
//! for the mean and for these distances, which grows far less than a bound for
//! each channel alone.

use crate::color::adjustments;
use crate::color::agreement;
use crate::color::bounded;
use crate::color::bounded::{band_edges, band_weight, curve, mixed};
use crate::color::drift;
use crate::color::drift::{grain, pair, quarter, units_of, whole, within};
use crate::color::lut::identity::close;
use crate::ieee::laws;
use crate::ieee::single::Single;
use vstd::prelude::*;

verus! {

/// An integer held between two others.
pub open spec fn held(x: int, low: int, high: int) -> int {
    if x < low {
        low
    } else if x > high {
        high
    } else {
        x
    }
}

/// Where a luma stands between the edges of a band.
pub open spec fn place(from: Single, to: Single, x: Single) -> Single {
    x.minus(from).over(to.minus(from)).clamped(Single::zero(), Single::one())
}

pub(crate) proof fn lemma_place(from: Single, to: Single, a: int, b: int, x: Single)
    requires
        band_edges(from, to, a, b),
        within(x, -12, 12),
    ensures
        within(place(from, to, x), 0, 4),
        ({
            let t = units_of(place(from, to, x));
            let y = held(units_of(x) - a * quarter(), 0, (b - a) * quarter());
            &&& close(t * (b - a), 4 * y, (9 * (b - a)) * grain())
            &&& units_of(x) <= a * quarter() ==> t == 0
            &&& units_of(x) >= b * quarter() ==> t == whole()
        }),
{
    let (q, g, p) = (quarter(), grain(), whole());
    drift::lemma_measures();
    bounded::lemma_edges(from, to, a, b);
    let width = to.minus(from);
    let d = units_of(width);
    let n = b - a;
    assert(d == n * q);
    assert(n == 1 || n == 2 || n == 3 || n == 4);
    assert(q <= d <= 4 * q) by (nonlinear_arith)
        requires
            d == n * q,
            1 <= n <= 4,
            q > 0,
    ;
    assert(a * q >= 0 && a * q <= 3 * q) by (nonlinear_arith)
        requires
            0 <= a <= 3,
            q > 0,
    ;
    assert(b * q == a * q + n * q) by (nonlinear_arith)
        requires
            b == a + n,
    ;
    assert(0 * q == 0 && 0 * d == 0);
    let z = x.minus(from);
    let r = z.over(width);
    let u = units_of(x) - a * q;
    if u <= 0 {
        drift::lemma_minus(x, from, -16, 0, 16);
        let v = units_of(z);
        assert((-64 * q) * d <= v * p <= 0) by (nonlinear_arith)
            requires
                -(16 * q) <= v <= 0,
                p == 4 * q,
                q <= d,
                q > 0,
        {
            assert(v * p >= -(16 * q) * p);
            assert((64 * q) * d >= (64 * q) * q);
        }
        drift::lemma_over(z, width, -64, 0, 64);
        drift::lemma_clamp(r);
        assert(0 * n == 0);
        assert(units_of(place(from, to, x)) == 0);
    } else if u >= n * q {
        drift::lemma_minus(x, from, n, 16, 16);
        let v = units_of(z);
        assert((4 * q) * d <= v * p <= (64 * q) * d) by (nonlinear_arith)
            requires
                d <= v <= 16 * q,
                p == 4 * q,
                q <= d,
                q > 0,
        {
            assert(d * p <= v * p);
            assert(v * p <= (16 * q) * p);
            assert((64 * q) * d >= (64 * q) * q);
        }
        drift::lemma_over(z, width, 4, 64, 64);
        drift::lemma_clamp(r);
        assert(p * n == 4 * (n * q)) by (nonlinear_arith)
            requires
                p == 4 * q,
        ;
        assert(units_of(place(from, to, x)) == p);
    } else {
        drift::lemma_minus(x, from, 0, n, n);
        let v = units_of(z);
        assert(0 <= v * p <= (4 * q) * d) by (nonlinear_arith)
            requires
                0 <= v <= d,
                p == 4 * q,
                q > 0,
        ;
        drift::lemma_over(z, width, 0, 4, 4);
        drift::lemma_clamp(r);
        let t = units_of(r);
        assert(t * n - 4 * v <= 5 * (n * g)) by (nonlinear_arith)
            requires
                t * d <= v * p + (5 * g) * d,
                d == n * q,
                p == 4 * q,
                q > 0,
        {
            assert(t * (n * q) == (t * n) * q);
            assert(v * (4 * q) == (4 * v) * q);
            assert((5 * g) * (n * q) == (5 * (n * g)) * q);
        }
        assert(4 * v - t * n <= 5 * (n * g)) by (nonlinear_arith)
            requires
                t * d >= v * p - (5 * g) * d,
                d == n * q,
                p == 4 * q,
                q > 0,
        {
            assert(t * (n * q) == (t * n) * q);
            assert(v * (4 * q) == (4 * v) * q);
            assert((5 * g) * (n * q) == (5 * (n * g)) * q);
        }
        assert((9 * n) * g == 9 * (n * g)) by (nonlinear_arith);
        assert(units_of(place(from, to, x)) == t);
        assert(close(t * n, 4 * u, (9 * n) * g));
    }
    drift::lemma_ends();
    assert((9 * n) * g >= 0) by (nonlinear_arith)
        requires
            n >= 1,
            g > 0,
    ;
    bounded::lemma_clamp_any(r);
}

/// The places of two lumas are close.
pub(crate) proof fn lemma_places(
    from: Single,
    to: Single,
    a: int,
    b: int,
    x: Single,
    y: Single,
    k: int,
    n: int,
)
    requires
        band_edges(from, to, a, b),
        pair(x, y, -12, 12, k),
        0 <= k,
        4 * k + 18 * (b - a) <= n * (b - a),
    ensures
        pair(place(from, to, x), place(from, to, y), 0, 4, n),
{
    let (q, g) = (quarter(), grain());
    drift::lemma_measures();
    lemma_place(from, to, a, b, x);
    lemma_place(from, to, a, b, y);
    let m = b - a;
    let (s, t) = (units_of(place(from, to, x)), units_of(place(from, to, y)));
    assert(m * q > 0) by (nonlinear_arith)
        requires
            m >= 1,
            q > 0,
    ;
    let u = held(units_of(x) - a * q, 0, m * q);
    let v = held(units_of(y) - a * q, 0, m * q);
    assert(k * g >= 0) by (nonlinear_arith)
        requires
            k >= 0,
            g > 0,
    ;
    assert(-(k * g) <= u - v <= k * g);
    assert(4 * (k * g) + 2 * ((9 * m) * g) <= (n * m) * g) by (nonlinear_arith)
        requires
            4 * k + 18 * m <= n * m,
            g > 0,
    ;
    assert(s - t <= n * g) by (nonlinear_arith)
        requires
            s * m - t * m <= (n * m) * g,
            m >= 1,
    ;
    assert(t - s <= n * g) by (nonlinear_arith)
        requires
            t * m - s * m <= (n * m) * g,
            m >= 1,
    ;
}

/// A channel from -0.5 to 2.5, but for `e` grains.
pub open spec fn lies(x: Single, e: int) -> bool {
    &&& laws::is_finite(x)
    &&& -(2 * quarter() + e * grain()) <= units_of(x) <= 10 * quarter() + e * grain()
}

/// What a band makes of a channel, but for 28 grains; the result lies about where
/// the channel did.
pub(crate) proof fn lemma_moved(v: Single, target: Single, w: Single, e: int)
    requires
        lies(v, e),
        0 <= e <= 2000,
        within(target, 0, 0) || within(target, 4, 4),
        within(w, -3, 3),
        -(40 * grain()) <= units_of(w) <= 2 * quarter() + 40 * grain(),
    ensures
        lies(adjustments::toward(v, target, w), e + 200),
        close(
            units_of(adjustments::toward(v, target, w)) * whole(),
            units_of(v) * whole() + (units_of(target) - units_of(v)) * units_of(w),
            (28 * grain()) * whole(),
        ),
{
    let (q, g, p) = (quarter(), grain(), whole());
    drift::lemma_measures();
    assert(0 * q == 0);
    let c = e * g;
    assert(0 <= c <= 2000 * g) by (nonlinear_arith)
        requires
            0 <= e <= 2000,
            c == e * g,
            g > 0,
    ;
    drift::lemma_minus(target, v, -11, 11, 11);
    let t = target.minus(v);
    drift::lemma_multiplied(t, w, 11, 3, 9);
    let (uv, ut, us, uw) = (units_of(v), units_of(target), units_of(t), units_of(w));
    let ur = units_of(t.times(w));
    let h = us - (ut - uv);
    let w0 = held(uw, 0, 2 * q);
    let f = uw - w0;
    assert(us * uw == (ut - uv) * uw + h * uw) by (nonlinear_arith)
        requires
            us == ut - uv + h,
    ;
    assert((ut - uv) * uw == (ut - uv) * w0 + (ut - uv) * f) by (nonlinear_arith)
        requires
            uw == w0 + f,
    ;
    let far = 10 * q + c;
    assert(-(far * (40 * g)) <= (ut - uv) * f <= far * (40 * g)) by (nonlinear_arith)
        requires
            -far <= ut - uv <= far,
            -(40 * g) <= f <= 40 * g,
    ;
    assert(-((11 * g) * (2 * q + 40 * g)) <= h * uw <= (11 * g) * (2 * q + 40 * g)) by (nonlinear_arith)
        requires
            -(11 * g) <= h <= 11 * g,
            -(2 * q + 40 * g) <= uw <= 2 * q + 40 * g,
    ;
    assert((11 * g) * (2 * q + 40 * g) <= (6 * g) * p) by (nonlinear_arith)
        requires
            p == 4 * q,
            q == 0x100_0000 * g,
            g > 0,
    {
        assert((11 * g) * (2 * q + 40 * g) == 22 * (g * q) + 440 * (g * g));
        assert((6 * g) * p == 24 * (g * q));
        assert(g * q == 0x100_0000 * (g * g));
        assert(g * g > 0);
    }
    let (low, high) = (-(2 * q + c), 10 * q + c);
    assert(low * p <= uv * p + (ut - uv) * w0 <= high * p) by (nonlinear_arith)
        requires
            low <= uv <= high,
            low <= 0,
            p <= high,
            0 <= ut <= p,
            0 <= w0 <= 2 * q,
            p == 4 * q,
            q > 0,
    {
        assert(uv * p + (ut - uv) * w0 == uv * (p - w0) + ut * w0);
        assert(0 <= ut * w0 <= p * w0);
        assert(low * (p - w0) <= uv * (p - w0) <= high * (p - w0));
        assert(p * w0 <= high * w0);
        assert(high * (p - w0) + high * w0 == high * p);
        assert(low * (p - w0) == low * p - low * w0);
        assert(low * w0 <= 0);
    }
    assert(far * (40 * g) <= (101 * g) * p) by (nonlinear_arith)
        requires
            far == 10 * q + c,
            0 <= c <= 2000 * g,
            p == 4 * q,
            q == 0x100_0000 * g,
            g > 0,
    {
        assert(far * (40 * g) == 400 * (g * q) + 40 * (c * g));
        assert(c * g <= (2000 * g) * g);
        assert((101 * g) * p == 404 * (g * q));
        assert(g * q == 0x100_0000 * (g * g));
        assert(g * g > 0);
    }
    assert((6 * g) * p + (10 * g) * p == (16 * g) * p) by (nonlinear_arith);
    assert((101 * g) * p + (16 * g) * p == (117 * g) * p) by (nonlinear_arith);
    assert(uv + ur <= high + 117 * g) by (nonlinear_arith)
        requires
            uv * p + ur * p <= high * p + (117 * g) * p,
            p > 0,
    ;
    assert(uv + ur >= low - 117 * g) by (nonlinear_arith)
        requires
            uv * p + ur * p >= low * p - (117 * g) * p,
            p > 0,
    ;
    drift::lemma_plus(v, t.times(w), -3, 11, 11);
    let r = units_of(adjustments::toward(v, target, w));
    assert(-((11 * g) * p) <= r * p - uv * p - ur * p <= (11 * g) * p) by (nonlinear_arith)
        requires
            -(11 * g) <= r - (uv + ur) <= 11 * g,
            p > 0,
    ;
    assert((16 * g) * p + (11 * g) * p <= (28 * g) * p) by (nonlinear_arith)
        requires
            g > 0,
            p > 0,
    ;
    assert((e + 200) * g == c + 200 * g) by (nonlinear_arith)
        requires
            c == e * g,
    ;
}

/// Every channel of a color lies from -0.5 to 2.5, but for `e` grains.
pub open spec fn all_lie(c: [Single; 3], e: int) -> bool {
    lies(c[0], e) && lies(c[1], e) && lies(c[2], e)
}

pub(crate) proof fn lemma_lie_within(c: [Single; 3], e: int)
    requires
        all_lie(c, e),
        0 <= e <= 2000,
    ensures
        bounded::all_within(c, 11),
{
    let g = grain();
    drift::lemma_measures();
    assert(e * g <= 2000 * g) by (nonlinear_arith)
        requires
            e <= 2000,
            g > 0,
    ;
}

/// The lumas of two colors are no farther apart than the means of their channels,
/// but for rounding.
pub(crate) proof fn lemma_lumas(c: [Single; 3], d: [Single; 3], a: int, k: int)
    requires
        bounded::all_within(c, a),
        bounded::all_within(d, a),
        close(mixed(c), mixed(d), (k * grain()) * whole()),
        0 <= a < 0x2_0000,
    ensures
        pair(adjustments::luma(c), adjustments::luma(d), -(a + 1), a + 1, k + 7 * a + 22),
{
    let (g, p) = (grain(), whole());
    bounded::lemma_luma(c, a);
    bounded::lemma_luma(d, a);
    let n = k + 7 * a + 22;
    assert((k * g) * p + ((7 * a + 22) * g) * p == (n * g) * p) by (nonlinear_arith)
        requires
            n == k + (7 * a + 22),
    ;
    agreement::lemma_whole_out(units_of(adjustments::luma(c)), units_of(adjustments::luma(d)), n);
}

/// The weights of a band whose masks stand at places that are close.
proof fn lemma_masks(s: Single, t: Single, amount: Single, dark: bool, k: int, n: int, m: int)
    requires
        pair(s, t, 0, 4, k),
        0 <= k,
        close(units_of(curve(s)), units_of(curve(t)), n * grain()),
        0 <= n,
        n + 36 <= 2 * m,
        within(amount, -4, 4),
    ensures
        ({
            let one = Single::one();
            let half = Single { bits: adjustments::TONAL_STRENGTH };
            let i = if dark {
                one.minus(curve(s))
            } else {
                curve(s)
            };
            let j = if dark {
                one.minus(curve(t))
            } else {
                curve(t)
            };
            let v = amount.magnitude().times(i).times(half);
            let w = amount.magnitude().times(j).times(half);
            &&& pair(v, w, -3, 3, m)
            &&& -(40 * grain()) <= units_of(v) <= 2 * quarter() + 40 * grain()
            &&& -(40 * grain()) <= units_of(w) <= 2 * quarter() + 40 * grain()
        }),
{
    let (g, one) = (grain(), Single::one());
    drift::lemma_measures();
    drift::lemma_ends();
    bounded::lemma_curve(s);
    bounded::lemma_curve(t);
    let (e, f) = (curve(s), curve(t));
    assert(0 * quarter() == 0 && 0 * g == 0);
    drift::lemma_minus(one, e, -1, 4, 4);
    drift::lemma_minus(one, f, -1, 4, 4);
    let i = if dark {
        one.minus(e)
    } else {
        e
    };
    let j = if dark {
        one.minus(f)
    } else {
        f
    };
    assert((n + 8) * g == n * g + 8 * g) by (nonlinear_arith);
    assert(pair(i, j, -1, 5, n + 8));
    bounded::lemma_weight(i, amount);
    bounded::lemma_weight(j, amount);
    bounded::lemma_magnitude(amount);
    bounded::lemma_fractions();
    let a = amount.magnitude();
    let half = Single { bits: adjustments::TONAL_STRENGTH };
    assert(4 * (n + 8) + 5 * 0 + 8 * (5 + 1) <= 4 * (n + 20));
    agreement::lemma_products(a, a, i, j, 4, 5, 0, n + 8, 5, n + 20);
    assert(5 * 0 + 2 * (n + 20) + 8 * (3 + 1) <= 4 * m);
    agreement::lemma_products(a.times(i), a.times(j), half, half, 5, 2, n + 20, 0, 3, m);
}

/// A distance that is followed: no more than `k` grains apart, and no more than
/// `a` grains and `b` grains for every one that it measures.
pub open spec fn followed(x: int, y: int, k: int, a: int, b: int) -> bool {
    let size = if x < 0 {
        -x
    } else {
        x
    };
    &&& close(x, y, k * grain())
    &&& close(x * whole(), y * whole(), (a * grain()) * whole() + (b * grain()) * size)
}

/// A distance scaled down by two weights that are close.
proof fn lemma_shrunk(
    x: int,
    y: int,
    w: int,
    v: int,
    s: int,
    t: int,
    k: int,
    a: int,
    b: int,
    n: int,
    j: int,
)
    requires
        followed(x, y, k, a, b),
        close(s * whole(), x * (whole() - w), (56 * grain()) * whole()),
        close(t * whole(), y * (whole() - v), (56 * grain()) * whole()),
        -(40 * grain()) <= w <= 2 * quarter() + 40 * grain(),
        -(40 * grain()) <= v <= 2 * quarter() + 40 * grain(),
        close(w, v, n * grain()),
        -(12 * quarter() + 4000 * grain()) <= x <= 12 * quarter() + 4000 * grain(),
        0 <= k <= 20000,
        0 <= a <= 20000,
        0 <= b <= 10000,
        0 <= n <= 10000,
        2 * (b + n) <= j || (64 * w <= whole() && 64 * (b + n) + 63 <= 63 * j),
    ensures
        followed(s, t, k + 3 * n + 114, a + 115, j),
{
    let (q, g, p) = (quarter(), grain(), whole());
    drift::lemma_measures();
    let size = if x < 0 {
        -x
    } else {
        x
    };
    let after = if s < 0 {
        -s
    } else {
        s
    };
    let d = x - y;
    let z = x * (p - w) - y * (p - v);
    assert(z == d * p - d * v + x * (v - w)) by (nonlinear_arith)
        requires
            z == x * (p - w) - y * (p - v),
            d == x - y,
    ;
    assert(x * p - y * p == d * p) by (nonlinear_arith)
        requires
            d == x - y,
    ;
    // The part of the difference that a weight takes away.
    assert(-(n * g) * size <= x * (v - w) <= (n * g) * size) by (nonlinear_arith)
        requires
            -(n * g) <= v - w <= n * g,
            size == if x < 0 { -x } else { x },
    ;
    assert(-(n * g) * size == -((n * g) * size)) by (nonlinear_arith);
    let gg = g * g;
    let gp = g * p;
    assert(gp == 0x400_0000 * gg && gg > 0) by (nonlinear_arith)
        requires
            p == 4 * q,
            q == 0x100_0000 * g,
            gp == g * p,
            gg == g * g,
            g > 0,
    ;
    assert(0 <= k * g && k * g <= 20000 * g) by (nonlinear_arith)
        requires
            0 <= k <= 20000,
            g > 0,
    ;
    let dd = d * p - d * v;
    // Taken with what the difference is.
    assert(-((k * g) * p + 800000 * gg) <= dd <= (k * g) * p + 800000 * gg) by (nonlinear_arith)
        requires
            dd == d * p - d * v,
            -(k * g) <= d <= k * g,
            -(40 * g) <= v <= p,
            0 <= k * g <= 20000 * g,
            gg == g * g,
            g > 0,
            p > 0,
    {
        assert(dd == d * (p - v));
        assert(0 <= p - v <= p + 40 * g);
        assert(-((k * g) * (p - v)) <= d * (p - v) <= (k * g) * (p - v));
        assert((k * g) * (p - v) <= (k * g) * (p + 40 * g));
        assert((k * g) * (p + 40 * g) == (k * g) * p + (k * g) * (40 * g));
        assert((k * g) * (40 * g) <= (20000 * g) * (40 * g));
        assert((20000 * g) * (40 * g) == 800000 * (g * g));
    }
    let bound = (a * g) * p + (b * g) * size;
    assert(-(bound + 800000 * gg) <= dd <= bound + 800000 * gg) by (nonlinear_arith)
        requires
            dd == d * p - d * v,
            -bound <= d * p <= bound,
            -(k * g) <= d <= k * g,
            -(40 * g) <= v <= p,
            0 <= k * g <= 20000 * g,
            gg == g * g,
            g > 0,
            p > 0,
    {
        assert((20000 * g) * (40 * g) == 800000 * (g * g));
        if v >= 0 {
            if d >= 0 {
                assert(0 <= d * v <= d * p);
            } else {
                assert(d * p <= d * v <= 0);
            }
        } else {
            assert(-((k * g) * (40 * g)) <= d * v <= (k * g) * (40 * g));
            assert((k * g) * (40 * g) <= (20000 * g) * (40 * g));
        }
    }
    assert(-(2 * ((56 * g) * p)) <= s * p - t * p - z <= 2 * ((56 * g) * p));
    assert((56 * g) * p == 56 * gp) by (nonlinear_arith)
        requires
            gp == g * p,
    ;
    // In grains.
    assert((n * g) * size <= (3 * n + 1) * gp) by (nonlinear_arith)
        requires
            0 <= size <= 12 * q + 4000 * g,
            0 <= n <= 10000,
            p == 4 * q,
            gp == g * p,
            gp == 0x400_0000 * gg,
            gg == g * g,
            g > 0,
    {
        assert((n * g) * size <= (n * g) * (12 * q + 4000 * g));
        assert((n * g) * (12 * q) == (3 * n) * gp);
        assert((n * g) * (4000 * g) == (4000 * n) * gg);
        assert((4000 * n) * gg <= gp);
    }
    let c = k + 3 * n + 114;
    assert((c * g) * p == (k * g) * p + (3 * n + 1) * gp + 113 * gp) by (nonlinear_arith)
        requires
            c == k + (3 * n + 1) + 113,
            gp == g * p,
    ;
    assert(s - t <= c * g) by (nonlinear_arith)
        requires
            s * p - t * p <= (c * g) * p,
            p > 0,
    ;
    assert(t - s <= c * g) by (nonlinear_arith)
        requires
            t * p - s * p <= (c * g) * p,
            p > 0,
    ;
    // In grains and parts: the distance before is not much more than twice the one
    // after.
    assert(size * (p - w) <= after * p + (56 * g) * p) by (nonlinear_arith)
        requires
            -((56 * g) * p) <= s * p - x * (p - w) <= (56 * g) * p,
            size == if x < 0 { -x } else { x },
            after == if s < 0 { -s } else { s },
            p > 0,
    ;
    assert(((b + n) * g) * size <= (j * g) * after + gp) by {
        if 2 * (b + n) <= j {
            assert(size <= 2 * after + 500 * g) by (nonlinear_arith)
                requires
                    size * (p - w) <= after * p + (56 * g) * p,
                    p - w >= 2 * q - 40 * g,
                    p == 4 * q,
                    q == 0x100_0000 * g,
                    0 <= size <= 12 * q + 4000 * g,
                    after >= 0,
                    g > 0,
            {
                assert(size * (p - w) >= size * (2 * q - 40 * g));
                assert(size * (2 * q - 40 * g) == (2 * q) * size - (40 * g) * size);
                assert((40 * g) * size <= (40 * g) * (13 * q));
                assert((2 * q) * size <= (4 * q) * after + (224 * g) * q + (520 * g) * q);
                assert((4 * q) * after + (224 * g) * q + (520 * g) * q == (2 * q) * (2 * after + 372 * g));
            }
            assert(((b + n) * g) * size <= (j * g) * after + gp) by (nonlinear_arith)
                requires
                    size <= 2 * after + 500 * g,
                    2 * (b + n) <= j,
                    0 <= b + n <= 20000,
                    after >= 0,
                    gp == 0x400_0000 * gg,
                    gg == g * g,
                    g > 0,
            {
                assert(((b + n) * g) * size <= ((b + n) * g) * (2 * after + 500 * g));
                assert(((b + n) * g) * (2 * after) == (2 * (b + n)) * (g * after));
                assert((2 * (b + n)) * (g * after) <= j * (g * after));
                assert(((b + n) * g) * (500 * g) == (500 * (b + n)) * gg);
                assert((500 * (b + n)) * gg <= gp);
                assert(j * (g * after) == (j * g) * after);
            }
        } else {
            assert(63 * size <= 64 * after + 3584 * g) by (nonlinear_arith)
                requires
                    size * (p - w) <= after * p + (56 * g) * p,
                    64 * w <= p,
                    size >= 0,
                    p > 0,
            {
                assert(size * (64 * p - 64 * w) >= size * (63 * p));
                assert(size * (64 * p - 64 * w) == 64 * (size * (p - w)));
                assert((63 * size) * p <= (64 * after + 3584 * g) * p);
            }
            assert(((b + n) * g) * size <= (j * g) * after + gp) by (nonlinear_arith)
                requires
                    63 * size <= 64 * after + 3584 * g,
                    64 * (b + n) + 63 <= 63 * j,
                    0 <= b + n <= 20000,
                    after >= 0,
                    gp == 0x400_0000 * gg,
                    gg == g * g,
                    g > 0,
            {
                assert(((b + n) * g) * (63 * size) <= ((b + n) * g) * (64 * after + 3584 * g));
                assert(((b + n) * g) * (64 * after) == (64 * (b + n)) * (g * after));
                assert((64 * (b + n)) * (g * after) <= (63 * j) * (g * after));
                assert(((b + n) * g) * (3584 * g) == (3584 * (b + n)) * gg);
                assert((3584 * (b + n)) * gg <= 63 * gp);
                assert((63 * j) * (g * after) == 63 * ((j * g) * after));
                assert(((b + n) * g) * (63 * size) == 63 * (((b + n) * g) * size));
            }
        }
    }
    assert((b * g) * size + (n * g) * size == ((b + n) * g) * size) by (nonlinear_arith);
    assert(((a + 115) * g) * p == (a * g) * p + 115 * gp) by (nonlinear_arith)
        requires
            gp == g * p,
    ;
}

/// Two colors that are followed through the bands: where their channels lie, how
/// far apart the means of their channels are, and how far apart the distances
/// between their channels.
pub open spec fn toned(
    c: [Single; 3],
    d: [Single; 3],
    e: int,
    k: int,
    m: int,
    a: int,
    b: int,
) -> bool {
    let (x, y, z) = (units_of(c[0]), units_of(c[1]), units_of(c[2]));
    let (u, v, w) = (units_of(d[0]), units_of(d[1]), units_of(d[2]));
    &&& all_lie(c, e)
    &&& all_lie(d, e)
    &&& close(mixed(c), mixed(d), (k * grain()) * whole())
    &&& followed(x - y, u - v, m, a, b)
    &&& followed(x - z, u - w, m, a, b)
    &&& followed(y - z, v - w, m, a, b)
}

/// The mean of the channels moves as the channels do.
pub(crate) proof fn lemma_mean_moved(c: [Single; 3], r: [Single; 3], t: int, w: int)
    requires
        forall|i: int|
            0 <= i < 3 ==> close(
                units_of(#[trigger] r[i]) * whole(),
                units_of(c[i]) * whole() + (t - units_of(c[i])) * w,
                (28 * grain()) * whole(),
            ),
    ensures
        close(
            mixed(r) * whole(),
            mixed(c) * (whole() - w) + (t * whole()) * w,
            ((28 * grain()) * whole()) * whole(),
        ),
{
    let (g, p) = (grain(), whole());
    bounded::lemma_weights();
    let a = units_of(Single { bits: adjustments::LUMA_RED });
    let b = units_of(Single { bits: adjustments::LUMA_GREEN });
    let h = units_of(Single { bits: adjustments::LUMA_BLUE });
    let (x, y, z) = (units_of(c[0]), units_of(c[1]), units_of(c[2]));
    let (i, j, k) = (units_of(r[0]), units_of(r[1]), units_of(r[2]));
    let m = i * p - (x * p + (t - x) * w);
    let n = j * p - (y * p + (t - y) * w);
    let o = k * p - (z * p + (t - z) * w);
    let e = (28 * g) * p;
    bounded::lemma_mean(m, n, o, a, b, h, -e, e);
    assert(-e * p == -(e * p)) by (nonlinear_arith);
    lemma_mean_parts(x, i, a, t, w, p, m);
    lemma_mean_parts(y, j, b, t, w, p, n);
    lemma_mean_parts(z, k, h, t, w, p, o);
    assert((i * a + j * b + k * h) * p == (i * a) * p + (j * b) * p + (k * h) * p) by (nonlinear_arith);
    assert((x * a + y * b + z * h) * (p - w) == (x * a) * (p - w) + (y * b) * (p - w) + (z * h) * (p
        - w)) by (nonlinear_arith);
    assert((t * a) * w + (t * b) * w + (t * h) * w == (t * p) * w) by (nonlinear_arith)
        requires
            a + b + h == p,
    ;
}

proof fn lemma_mean_parts(x: int, i: int, a: int, t: int, w: int, p: int, m: int)
    requires
        m == i * p - (x * p + (t - x) * w),
    ensures
        m * a == (i * a) * p - (x * a) * (p - w) - (t * a) * w,
{
    assert(m * a == (i * p) * a - (x * p) * a - ((t - x) * w) * a) by (nonlinear_arith)
        requires
            m == i * p - (x * p + (t - x) * w),
    ;
    assert(((t - x) * w) * a == (t * a) * w - (x * a) * w) by (nonlinear_arith);
    assert((x * a) * (p - w) == (x * p) * a - (x * a) * w) by (nonlinear_arith);
    assert((i * p) * a == (i * a) * p) by (nonlinear_arith);
}

/// A distance between two channels shrinks by the weight.
proof fn lemma_distance_moved(x: int, y: int, r: int, s: int, t: int, w: int)
    requires
        close(r * whole(), x * whole() + (t - x) * w, (28 * grain()) * whole()),
        close(s * whole(), y * whole() + (t - y) * w, (28 * grain()) * whole()),
    ensures
        close((r - s) * whole(), (x - y) * (whole() - w), (56 * grain()) * whole()),
{
    let (g, p) = (grain(), whole());
    assert((r - s) * p == r * p - s * p) by (nonlinear_arith);
    assert((x - y) * (p - w) == x * p - y * p + (t - x) * w - (t - y) * w) by (nonlinear_arith);
    assert((56 * g) * p == 2 * ((28 * g) * p)) by (nonlinear_arith);
}

/// A color moved toward a target.
pub open spec fn all_toward(c: [Single; 3], target: Single, w: Single) -> [Single; 3] {
    [
        adjustments::toward(c[0], target, w),
        adjustments::toward(c[1], target, w),
        adjustments::toward(c[2], target, w),
    ]
}

/// The means of two colors, moved by weights that are close.
proof fn lemma_means(a: int, b: int, r: int, s: int, t: int, w: int, v: int, k: int, n: int)
    requires
        close(a, b, (k * grain()) * whole()),
        close(
            r * whole(),
            a * (whole() - w) + (t * whole()) * w,
            ((28 * grain()) * whole()) * whole(),
        ),
        close(
            s * whole(),
            b * (whole() - v) + (t * whole()) * v,
            ((28 * grain()) * whole()) * whole(),
        ),
        -(40 * grain()) <= v <= whole(),
        0 <= k <= 20000,
        close((t * whole() - a) * (w - v), 0, (((n + 1) * grain()) * whole()) * whole()),
    ensures
        close(r, s, ((k + n + 60) * grain()) * whole()),
{
    let (q, g, p) = (quarter(), grain(), whole());
    drift::lemma_measures();
    let x = a * (p - w) + (t * p) * w;
    let y = b * (p - v) + (t * p) * v;
    assert(x - y == (a - b) * (p - v) + (t * p - a) * (w - v)) by (nonlinear_arith)
        requires
            x == a * (p - w) + (t * p) * w,
            y == b * (p - v) + (t * p) * v,
    ;
    let e = (k * g) * p;
    let top = ((k + 1) * g) * p;
    assert(-(top * p) <= (a - b) * (p - v) <= top * p) by (nonlinear_arith)
        requires
            -e <= a - b <= e,
            0 <= p - v <= p + 40 * g,
            e == (k * g) * p,
            top == ((k + 1) * g) * p,
            0 <= k <= 20000,
            p == 4 * q,
            q == 0x100_0000 * g,
            g > 0,
    {
        assert(e >= 0);
        assert(-(e * (p - v)) <= (a - b) * (p - v) <= e * (p - v));
        assert(e * (p - v) <= e * (p + 40 * g));
        assert(e * (40 * g) == (40 * k) * (g * (g * p)));
        assert((40 * k) * g <= p);
        assert(((40 * k) * g) * (g * p) <= p * (g * p));
        assert(top * p == e * p + p * (g * p));
        assert((40 * k) * (g * (g * p)) == ((40 * k) * g) * (g * p));
    }
    let all = ((k + n + 60) * g) * p;
    let (m, h) = (((n + 1) * g) * p, (28 * g) * p);
    assert(top * p + m * p + 2 * (h * p) <= all * p) by (nonlinear_arith)
        requires
            top == ((k + 1) * g) * p,
            m == ((n + 1) * g) * p,
            h == (28 * g) * p,
            all == ((k + n + 60) * g) * p,
            g > 0,
            p > 0,
    {
        assert(top + m + 2 * h <= all);
    }
    assert(r - s <= all) by (nonlinear_arith)
        requires
            r * p - s * p <= all * p,
            p > 0,
    ;
    assert(s - r <= all) by (nonlinear_arith)
        requires
            s * p - r * p <= all * p,
            p > 0,
    ;
}

/// Two colors moved toward one target by weights that are close.
pub(crate) proof fn lemma_step(
    c: [Single; 3],
    d: [Single; 3],
    target: Single,
    w: Single,
    v: Single,
    e: int,
    k: int,
    m: int,
    a: int,
    b: int,
    n: int,
    j: int,
)
    requires
        toned(c, d, e, k, m, a, b),
        0 <= e <= 1800,
        within(target, 0, 0) || within(target, 4, 4),
        pair(w, v, -3, 3, n),
        -(40 * grain()) <= units_of(w) <= 2 * quarter() + 40 * grain(),
        -(40 * grain()) <= units_of(v) <= 2 * quarter() + 40 * grain(),
        0 <= k <= 20000,
        0 <= m <= 20000,
        0 <= a <= 20000,
        0 <= b <= 10000,
        0 <= n <= 10000,
        2 * (b + n) <= j || (64 * units_of(w) <= whole() && 64 * (b + n) + 63 <= 63 * j),
        close(
            (units_of(target) * whole() - mixed(c)) * (units_of(w) - units_of(v)),
            0,
            (((n + 1) * grain()) * whole()) * whole(),
        ),
    ensures
        toned(
            all_toward(c, target, w),
            all_toward(d, target, v),
            e + 200,
            k + n + 60,
            m + 3 * n + 114,
            a + 115,
            j,
        ),
{
    let (q, g, p) = (quarter(), grain(), whole());
    drift::lemma_measures();
    let (r, s) = (all_toward(c, target, w), all_toward(d, target, v));
    let (t, uw, uv) = (units_of(target), units_of(w), units_of(v));
    lemma_moved(c[0], target, w, e);
    lemma_moved(c[1], target, w, e);
    lemma_moved(c[2], target, w, e);
    lemma_moved(d[0], target, v, e);
    lemma_moved(d[1], target, v, e);
    lemma_moved(d[2], target, v, e);
    lemma_mean_moved(c, r, t, uw);
    lemma_mean_moved(d, s, t, uv);
    lemma_means(mixed(c), mixed(d), mixed(r), mixed(s), t, uw, uv, k, n);
    let (x, y, z) = (units_of(c[0]), units_of(c[1]), units_of(c[2]));
    let (l, o, f) = (units_of(d[0]), units_of(d[1]), units_of(d[2]));
    let (x2, y2, z2) = (units_of(r[0]), units_of(r[1]), units_of(r[2]));
    let (l2, o2, f2) = (units_of(s[0]), units_of(s[1]), units_of(s[2]));
    assert(e * g <= 2000 * g && 0 <= e * g) by (nonlinear_arith)
        requires
            0 <= e <= 1800,
            g > 0,
    ;
    lemma_distance_moved(x, y, x2, y2, t, uw);
    lemma_distance_moved(x, z, x2, z2, t, uw);
    lemma_distance_moved(y, z, y2, z2, t, uw);
    lemma_distance_moved(l, o, l2, o2, t, uv);
    lemma_distance_moved(l, f, l2, f2, t, uv);
    lemma_distance_moved(o, f, o2, f2, t, uv);
    lemma_shrunk(x - y, l - o, uw, uv, x2 - y2, l2 - o2, m, a, b, n, j);
    lemma_shrunk(x - z, l - f, uw, uv, x2 - z2, l2 - f2, m, a, b, n, j);
    lemma_shrunk(y - z, o - f, uw, uv, y2 - z2, o2 - f2, m, a, b, n, j);
}

/// Wider bounds hold too.
pub(crate) proof fn lemma_followed_looser(x: int, y: int, k: int, a: int, b: int, l: int, i: int, j: int)
    requires
        followed(x, y, k, a, b),
        k <= l,
        a <= i,
        b <= j,
    ensures
        followed(x, y, l, i, j),
{
    let (g, p) = (grain(), whole());
    drift::lemma_measures();
    let size = if x < 0 {
        -x
    } else {
        x
    };
    assert(k * g <= l * g) by (nonlinear_arith)
        requires
            k <= l,
            g > 0,
    ;
    assert((a * g) * p <= (i * g) * p) by (nonlinear_arith)
        requires
            a <= i,
            g > 0,
            p > 0,
    ;
    assert((b * g) * size <= (j * g) * size) by (nonlinear_arith)
        requires
            b <= j,
            g > 0,
            size >= 0,
    ;
}

pub(crate) proof fn lemma_looser(
    c: [Single; 3],
    d: [Single; 3],
    e: int,
    k: int,
    m: int,
    a: int,
    b: int,
    f: int,
    l: int,
    n: int,
    i: int,
    j: int,
)
    requires
        toned(c, d, e, k, m, a, b),
        e <= f,
        k <= l,
        m <= n,
        a <= i,
        b <= j,
    ensures
        toned(c, d, f, l, n, i, j),
{
    let (g, p) = (grain(), whole());
    drift::lemma_measures();
    let (x, y, z) = (units_of(c[0]), units_of(c[1]), units_of(c[2]));
    let (u, v, w) = (units_of(d[0]), units_of(d[1]), units_of(d[2]));
    assert(e * g <= f * g) by (nonlinear_arith)
        requires
            e <= f,
            g > 0,
    ;
    assert((k * g) * p <= (l * g) * p) by (nonlinear_arith)
        requires
            k <= l,
            g > 0,
            p > 0,
    ;
    lemma_followed_looser(x - y, u - v, m, a, b, n, i, j);
    lemma_followed_looser(x - z, u - w, m, a, b, n, i, j);
    lemma_followed_looser(y - z, v - w, m, a, b, n, i, j);
}

/// The mean of the channels lies where they do.
pub(crate) proof fn lemma_mean_lies(c: [Single; 3], e: int)
    requires
        all_lie(c, e),
    ensures
        -((2 * quarter() + e * grain()) * whole()) <= mixed(c) <= (10 * quarter() + e * grain()) * whole(),
{
    bounded::lemma_weights();
    let a = units_of(Single { bits: adjustments::LUMA_RED });
    let b = units_of(Single { bits: adjustments::LUMA_GREEN });
    let h = units_of(Single { bits: adjustments::LUMA_BLUE });
    let (x, y, z) = (units_of(c[0]), units_of(c[1]), units_of(c[2]));
    let (low, high) = (-(2 * quarter() + e * grain()), 10 * quarter() + e * grain());
    bounded::lemma_mean(x, y, z, a, b, h, low, high);
    let p = whole();
    assert(-(2 * quarter() + e * grain()) * p == -((2 * quarter() + e * grain()) * p))
        by (nonlinear_arith);
}

/// How much of the mean the difference of two weights moves. Where they differ by
/// more than rounding, the mean is between the edges of the band.
proof fn lemma_pull(t: int, a: int, w: int, v: int, l: int, n: int, k: int)
    requires
        t == 0 || t == whole(),
        close(w, v, n * grain()),
        0 <= n <= 10000,
        close(2 * (l * whole()), 2 * a, (99 * grain()) * whole()),
        -(11 * quarter()) * whole() <= a <= (11 * quarter()) * whole(),
        -(11 * quarter()) * whole() <= a - whole() * whole(),
        0 <= k <= 3900,
        -(k * grain()) <= l <= whole() + k * grain() || (close(w, v, 67 * grain()) && n >= 184),
    ensures
        close((t * whole() - a) * (w - v), 0, (((n + 1) * grain()) * whole()) * whole()),
{
    let (q, g, p) = (quarter(), grain(), whole());
    drift::lemma_measures();
    let x = t * p - a;
    let all = (((n + 1) * g) * p) * p;
    assert(t * p == 0 || t * p == p * p) by (nonlinear_arith)
        requires
            t == 0 || t == p,
    ;
    assert(-(11 * q) * p == -((11 * q) * p)) by (nonlinear_arith);
    if -(k * g) <= l <= p + k * g {
        assert(0 <= k * g <= 3900 * g) by (nonlinear_arith)
            requires
                0 <= k <= 3900,
                g > 0,
        ;
        let s = p + 3950 * g;
        assert(-(s * p) <= x <= s * p) by (nonlinear_arith)
            requires
                x == t * p - a,
                t * p == 0 || t * p == p * p,
                2 * (l * p) - (99 * g) * p <= 2 * a <= 2 * (l * p) + (99 * g) * p,
                -(3900 * g) <= l <= p + 3900 * g,
                s == p + 3950 * g,
                p > 0,
                g > 0,
        {
            assert(l * p <= (p + 3900 * g) * p);
            assert(l * p >= -(3900 * g) * p);
            assert((p + 3900 * g) * p == p * p + (3900 * g) * p);
            assert(s * p == p * p + (3950 * g) * p);
            assert((99 * g) * p <= (100 * g) * p);
            assert(2 * ((50 * g) * p) == (100 * g) * p);
            assert((3900 * g) * p + (50 * g) * p == (3950 * g) * p);
            assert(p * p >= 0);
        }
        assert(-((s * p) * (n * g)) <= x * (w - v) <= (s * p) * (n * g)) by (nonlinear_arith)
            requires
                -(s * p) <= x <= s * p,
                -(n * g) <= w - v <= n * g,
        ;
        assert((s * p) * (n * g) <= all) by (nonlinear_arith)
            requires
                s == p + 3950 * g,
                all == (((n + 1) * g) * p) * p,
                0 <= n <= 10000,
                p == 4 * q,
                q == 0x100_0000 * g,
                g > 0,
        {
            assert((s * p) * (n * g) == (p * p) * (n * g) + ((3950 * g) * p) * (n * g));
            assert(((3950 * g) * p) * (n * g) == ((3950 * n) * g) * (g * p));
            assert((3950 * n) * g <= p);
            assert(((3950 * n) * g) * (g * p) <= p * (g * p));
            assert(all == (p * p) * (n * g) + p * (g * p));
        }
    } else {
        assert(-((11 * q) * p) <= x <= (11 * q) * p);
        assert(-(((11 * q) * p) * (67 * g)) <= x * (w - v) <= ((11 * q) * p) * (67 * g))
            by (nonlinear_arith)
            requires
                -((11 * q) * p) <= x <= (11 * q) * p,
                -(67 * g) <= w - v <= 67 * g,
        ;
        assert(((11 * q) * p) * (67 * g) <= all) by (nonlinear_arith)
            requires
                all == (((n + 1) * g) * p) * p,
                n >= 184,
                p == 4 * q,
                q > 0,
                g > 0,
        {
            let h = (g * p) * q;
            assert(h > 0);
            assert(((11 * q) * p) * (67 * g) == 737 * h);
            assert(all == (4 * (n + 1)) * h);
            assert((4 * (n + 1)) * h >= 740 * h);
        }
    }
}

/// What a band mixes toward.
pub open spec fn band_target(amount: Single) -> Single {
    if Single::zero().less(amount) {
        Single::one()
    } else {
        Single::zero()
    }
}

/// The weights of a band over two colors, and how much of the mean their
/// difference moves.
pub(crate) proof fn lemma_weights(
    c: [Single; 3],
    d: [Single; 3],
    amount: Single,
    from: Single,
    to: Single,
    dark: bool,
    a: int,
    b: int,
    e: int,
    k: int,
    h: int,
    n: int,
    m: int,
)
    requires
        band_edges(from, to, a, b),
        within(amount, -4, 4),
        all_lie(c, e),
        all_lie(d, e),
        0 <= e <= 1800,
        close(mixed(c), mixed(d), (k * grain()) * whole()),
        0 <= k <= 3800,
        4 * (k + 99) + 18 * (b - a) <= h * (b - a),
        0 <= h,
        close(
            units_of(curve(place(from, to, adjustments::luma(c)))),
            units_of(curve(place(from, to, adjustments::luma(d)))),
            n * grain(),
        ),
        0 <= n,
        n + 36 <= 2 * m,
        184 <= m <= 10000,
    ensures
        ({
            let w = band_weight(c, amount, from, to, dark);
            let v = band_weight(d, amount, from, to, dark);
            &&& pair(w, v, -3, 3, m)
            &&& -(40 * grain()) <= units_of(w) <= 2 * quarter() + 40 * grain()
            &&& -(40 * grain()) <= units_of(v) <= 2 * quarter() + 40 * grain()
            &&& close(
                (units_of(band_target(amount)) * whole() - mixed(c)) * (units_of(w) - units_of(v)),
                0,
                (((m + 1) * grain()) * whole()) * whole(),
            )
        }),
{
    let (q, g, p) = (quarter(), grain(), whole());
    drift::lemma_measures();
    drift::lemma_ends();
    lemma_lie_within(c, e);
    lemma_lie_within(d, e);
    lemma_lumas(c, d, 11, k);
    bounded::lemma_luma(c, 11);
    let (x, y) = (adjustments::luma(c), adjustments::luma(d));
    lemma_places(from, to, a, b, x, y, k + 99, h);
    let (s, t) = (place(from, to, x), place(from, to, y));
    lemma_masks(s, t, amount, dark, h, n, m);
    let w = band_weight(c, amount, from, to, dark);
    let v = band_weight(d, amount, from, to, dark);
    lemma_place(from, to, a, b, x);
    lemma_place(from, to, a, b, y);
    assert(0 * q == 0 && 0 * g == 0);
    assert(0 <= a * q && b * q <= 4 * q) by (nonlinear_arith)
        requires
            0 <= a,
            b <= 4,
            q > 0,
    ;
    assert((k + 99) * g == k * g + 99 * g) by (nonlinear_arith);
    let (ux, uy) = (units_of(x), units_of(y));
    if (ux <= a * q && uy <= a * q) || (ux >= b * q && uy >= b * q) {
        assert(pair(s, t, 0, 4, 0));
        agreement::lemma_curves(s, t, 0, 98);
        lemma_masks(s, t, amount, dark, 0, 98, 67);
    } else {
        assert(-((k + 99) * g) <= ux <= p + (k + 99) * g);
    }
    lemma_mean_lies(c, e);
    let all = mixed(c);
    assert(e * g <= 2000 * g && 0 <= e * g) by (nonlinear_arith)
        requires
            0 <= e <= 1800,
            g > 0,
    ;
    assert(-(11 * q) * p <= all <= (11 * q) * p && -(11 * q) * p <= all - p * p) by (nonlinear_arith)
        requires
            -((2 * q + e * g) * p) <= all <= (10 * q + e * g) * p,
            0 <= e * g <= 2000 * g,
            p == 4 * q,
            q == 0x100_0000 * g,
            g > 0,
    {
        assert((10 * q + e * g) * p <= (11 * q) * p);
        assert((2 * q + e * g) * p <= (3 * q) * p);
        assert((3 * q) * p + p * p == (7 * q) * p);
        assert((7 * q) * p <= (11 * q) * p);
        assert(-(11 * q) * p == -((11 * q) * p));
        assert((3 * q) * p <= (11 * q) * p);
    }
    lemma_pull(units_of(band_target(amount)), all, units_of(w), units_of(v), ux, m, k + 99);
}

/// One band over two colors.
pub(crate) proof fn lemma_band(
    c: [Single; 3],
    d: [Single; 3],
    amount: Single,
    from: Single,
    to: Single,
    dark: bool,
    a: int,
    b: int,
    e: int,
    k: int,
    m: int,
    i: int,
    j: int,
    h: int,
    n: int,
    o: int,
    l: int,
)
    requires
        band_edges(from, to, a, b),
        within(amount, -4, 4),
        toned(c, d, e, k, m, i, j),
        0 <= e <= 1800,
        0 <= k <= 3800,
        0 <= m <= 20000,
        0 <= i <= 20000,
        0 <= j <= 10000,
        4 * (k + 99) + 18 * (b - a) <= h * (b - a),
        0 <= h,
        3 * h + 196 <= 2 * n,
        n + 36 <= 2 * o,
        184 <= o <= 10000,
        2 * (j + o) <= l,
    ensures
        toned(
            adjustments::with_band(c, amount, from, to, dark),
            adjustments::with_band(d, amount, from, to, dark),
            e + 200,
            k + o + 60,
            m + 3 * o + 114,
            i + 115,
            l,
        ),
{
    if adjustments::active(amount) {
        lemma_lie_within(c, e);
        lemma_lie_within(d, e);
        lemma_lumas(c, d, 11, k);
        let (x, y) = (adjustments::luma(c), adjustments::luma(d));
        lemma_places(from, to, a, b, x, y, k + 99, h);
        agreement::lemma_curves(place(from, to, x), place(from, to, y), h, n);
        lemma_weights(c, d, amount, from, to, dark, a, b, e, k, h, n, o);
        let w = band_weight(c, amount, from, to, dark);
        let v = band_weight(d, amount, from, to, dark);
        let target = band_target(amount);
        drift::lemma_ends();
        lemma_step(c, d, target, w, v, e, k, m, i, j, o, l);
        assert(adjustments::with_band(c, amount, from, to, dark) == all_toward(c, target, w));
        assert(adjustments::with_band(d, amount, from, to, dark) == all_toward(d, target, v));
    } else {
        lemma_looser(
            c,
            d,
            e,
            k,
            m,
            i,
            j,
            e + 200,
            k + o + 60,
            m + 3 * o + 114,
            i + 115,
            l,
        );
    }
}

/// Distances that are no more than so far apart are followed without regard to
/// what they measure.
proof fn lemma_flat(c: [Single; 3], d: [Single; 3], e: int, k: int, m: int, a: int, b: int)
    requires
        toned(c, d, e, k, m, a, b),
    ensures
        toned(c, d, e, k, m, m, 0),
{
    let (x, y, z) = (units_of(c[0]), units_of(c[1]), units_of(c[2]));
    let (u, v, w) = (units_of(d[0]), units_of(d[1]), units_of(d[2]));
    lemma_followed_flat(x - y, u - v, m);
    lemma_followed_flat(x - z, u - w, m);
    lemma_followed_flat(y - z, v - w, m);
}

proof fn lemma_followed_flat(x: int, y: int, m: int)
    requires
        close(x, y, m * grain()),
    ensures
        followed(x, y, m, m, 0),
{
    let (g, p, e) = (grain(), whole(), m * grain());
    drift::lemma_measures();
    let size = if x < 0 {
        -x
    } else {
        x
    };
    assert((0 * g) * size == 0) by (nonlinear_arith);
    assert(y * p - e * p <= x * p <= y * p + e * p) by (nonlinear_arith)
        requires
            y - e <= x <= y + e,
            p > 0,
    ;
}

/// The two dark bands.
pub(crate) proof fn lemma_dark(c: [Single; 3], d: [Single; 3], blacks: Single, shadows: Single)
    requires
        toned(c, d, 0, 110, 220, 220, 0),
        within(blacks, -4, 4),
        within(shadows, -4, 4),
    ensures
        ({
            let (zero, quart, half) = (
                Single { bits: 0 },
                Single { bits: 0x3e80_0000 },
                Single { bits: 0x3f00_0000 },
            );
            let c = adjustments::with_band(c, blacks, zero, quart, true);
            let d = adjustments::with_band(d, blacks, zero, quart, true);
            &&& all_lie(c, 200)
            &&& all_lie(d, 200)
            &&& toned(
                adjustments::with_band(c, shadows, zero, half, true),
                adjustments::with_band(d, shadows, zero, half, true),
                400,
                2484,
                7210,
                2573,
                3092,
            )
        }),
{
    drift::lemma_measures();
    bounded::lemma_fractions();
    drift::lemma_ends();
    assert(0 * quarter() == 0);
    let (zero, quart, half) = (
        Single { bits: 0 },
        Single { bits: 0x3e80_0000 },
        Single { bits: 0x3f00_0000 },
    );
    assert(band_edges(zero, quart, 0, 1) && band_edges(zero, half, 0, 2));
    lemma_band(c, d, blacks, zero, quart, true, 0, 1, 0, 110, 220, 220, 0, 854, 1379, 708, 1416);
    let c = adjustments::with_band(c, blacks, zero, quart, true);
    let d = adjustments::with_band(d, blacks, zero, quart, true);
    lemma_flat(c, d, 200, 878, 2458, 335, 1416);
    lemma_band(c, d, shadows, zero, half, true, 0, 2, 200, 878, 2458, 2458, 0, 1972, 3056, 1546, 3092);
}

/// The two bright bands.
pub(crate) proof fn lemma_bright(c: [Single; 3], d: [Single; 3], highlights: Single, whites: Single)
    requires
        toned(c, d, 400, 110, 220, 220, 0),
        within(highlights, -4, 4),
        within(whites, -4, 4),
    ensures
        ({
            let (half, most, one) = (
                Single { bits: 0x3f00_0000 },
                Single { bits: 0x3f40_0000 },
                Single { bits: 0x3f80_0000 },
            );
            let c = adjustments::with_band(c, highlights, half, one, false);
            let d = adjustments::with_band(d, highlights, half, one, false);
            toned(
                adjustments::with_band(c, whites, most, one, false),
                adjustments::with_band(d, whites, most, one, false),
                800,
                2694,
                7840,
                1631,
                4140,
            )
        }),
{
    drift::lemma_measures();
    bounded::lemma_fractions();
    drift::lemma_ends();
    let (half, most, one) = (
        Single { bits: 0x3f00_0000 },
        Single { bits: 0x3f40_0000 },
        Single { bits: 0x3f80_0000 },
    );
    assert(band_edges(half, one, 2, 4) && band_edges(most, one, 3, 4));
    lemma_band(c, d, highlights, half, one, false, 2, 4, 400, 110, 220, 220, 0, 436, 752, 394, 788);
    let c = adjustments::with_band(c, highlights, half, one, false);
    let d = adjustments::with_band(d, highlights, half, one, false);
    lemma_flat(c, d, 600, 564, 1516, 335, 788);
    lemma_band(c, d, whites, most, one, false, 3, 4, 600, 564, 1516, 1516, 0, 2670, 4103, 2070, 4140);
}

/// Two colors as the bands leave them.
pub open spec fn through(c: [Single; 3], d: [Single; 3]) -> bool {
    toned(c, d, 800, 3234, 9394, 2688, 3844) || toned(c, d, 800, 2694, 7840, 1631, 4140)
}

/// Two colors before the bands.
pub(crate) proof fn lemma_entry(c: [Single; 3], d: [Single; 3])
    requires
        agreement::alike(c, d, -2, 10, 110),
    ensures
        toned(c, d, 0, 110, 220, 220, 0),
{
    let (g, p) = (grain(), whole());
    drift::lemma_measures();
    bounded::lemma_weights();
    let (x, y, z) = (units_of(c[0]), units_of(c[1]), units_of(c[2]));
    let (u, v, w) = (units_of(d[0]), units_of(d[1]), units_of(d[2]));
    let a = units_of(Single { bits: adjustments::LUMA_RED });
    let b = units_of(Single { bits: adjustments::LUMA_GREEN });
    let h = units_of(Single { bits: adjustments::LUMA_BLUE });
    bounded::lemma_mean(x - u, y - v, z - w, a, b, h, -(110 * g), 110 * g);
    assert((x - u) * a == x * a - u * a && (y - v) * b == y * b - v * b && (z - w) * h == z * h - w * h)
        by (nonlinear_arith);
    assert(-(110 * g) * p == -((110 * g) * p)) by (nonlinear_arith);
    assert(0 * g == 0);
    lemma_followed_flat(x - y, u - v, 220);
    lemma_followed_flat(x - z, u - w, 220);
    lemma_followed_flat(y - z, v - w, 220);
}

} // verus!
