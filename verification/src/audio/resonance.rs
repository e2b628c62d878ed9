//! What the recurrence of the take-off measures, in exact arithmetic.

use crate::audio::normal;
use crate::audio::takeoff;
use crate::color::bounded;
use crate::color::drift;
use crate::color::drift::{grain, quarter, units_of, whole, within};
use crate::color::lut::identity::close;
use crate::ieee::grid;
use crate::ieee::grid::Format;
use crate::ieee::laws;
use crate::ieee::single::Single;
use vstd::prelude::*;

verus! {

/// A zero, of either sign.
pub open spec fn is_zero(x: Single) -> bool {
    x.number().index == 0
}

/// Adding and taking off a zero leaves a value where it is.
proof fn lemma_zero(x: Single, z: Single)
    requires
        laws::is_finite(x),
        is_zero(z),
    ensures
        laws::is_finite(x.plus(z)) && units_of(x.plus(z)) == units_of(x),
        laws::is_finite(x.minus(z)) && units_of(x.minus(z)) == units_of(x),
        is_zero(x) ==> is_zero(x.plus(z)) && is_zero(x.minus(z)),
{
    laws::law_plus_zero(x, z);
    laws::law_minus_zero(x, z);
    reveal(units_of);
    assert(grid::units(Format::Single, 0) == 0);
    assert(x.plus(z).equals(x) && x.minus(z).equals(x));
}

/// Silence leaves the recurrence at rest.
proof fn lemma_rest(s: Seq<Single>, coeff: Single)
    requires
        forall|i: int| 0 <= i < s.len() ==> is_zero(#[trigger] s[i]),
        laws::is_finite(coeff),
    ensures
        is_zero(takeoff::resonance(s, coeff).0),
        is_zero(takeoff::resonance(s, coeff).1),
    decreases s.len(),
{
    if s.len() > 0 {
        let t = s.drop_last();
        assert forall|i: int| 0 <= i < t.len() implies is_zero(#[trigger] t[i]) by {
            assert(t[i] == s[i]);
        }
        lemma_rest(t, coeff);
        let (a, b) = takeoff::resonance(t, coeff);
        laws::law_times_zero(coeff, a);
        let x = s[s.len() - 1];
        assert(is_zero(s[s.len() - 1]));
        lemma_zero(x, coeff.times(a));
        lemma_zero(x.plus(coeff.times(a)), b);
    }
}

/// Two samples after silence, as the recurrence takes them.
proof fn lemma_two(s: Seq<Single>, coeff: Single)
    requires
        s.len() >= 2,
        forall|i: int| 0 <= i < s.len() - 2 ==> is_zero(#[trigger] s[i]),
        within(s[s.len() - 2], -1, 1),
        within(s[s.len() - 1], -1, 1),
        within(coeff, -8, 8),
    ensures
        ({
            let (a, b) = (units_of(s[s.len() - 2]), units_of(s[s.len() - 1]));
            let (s1, s2) = takeoff::resonance(s, coeff);
            &&& within(s2, -1, 1) && units_of(s2) == a
            &&& within(s1, -3, 3)
            &&& close(
                units_of(s1) * whole(),
                b * whole() + units_of(coeff) * a,
                (6 * grain()) * whole(),
            )
        }),
{
    let (w, g) = (whole(), grain());
    drift::lemma_measures();
    let n = s.len() as int;
    let (x, y) = (s[n - 2], s[n - 1]);
    let u = s.drop_last();
    let t = u.drop_last();
    assert(u.last() == x && s.last() == y);
    assert forall|i: int| 0 <= i < t.len() implies is_zero(#[trigger] t[i]) by {
        assert(t[i] == s[i]);
    }
    lemma_rest(t, coeff);
    let (z1, z2) = takeoff::resonance(t, coeff);
    laws::law_times_zero(coeff, z1);
    lemma_zero(x, coeff.times(z1));
    lemma_zero(x.plus(coeff.times(z1)), z2);
    let a = x.plus(coeff.times(z1)).minus(z2);
    assert(takeoff::resonance(u, coeff) == (a, z1));
    assert(within(a, -1, 1));
    drift::lemma_multiplied(coeff, a, 8, 1, 2);
    let p = coeff.times(a);
    drift::lemma_plus(y, p, -3, 3, 3);
    let d = y.plus(p);
    lemma_zero(d, z1);
    let s1 = d.minus(z1);
    assert(takeoff::resonance(s, coeff) == (s1, a));
    let (c, ua, up, ud, b) = (units_of(coeff), units_of(a), units_of(p), units_of(d), units_of(y));
    assert(close(ud * w, b * w + c * ua, (6 * g) * w)) by (nonlinear_arith)
        requires
            close(up * w, c * ua, ((2 + 1) * g) * w),
            close(ud, b + up, 3 * g),
            w > 0,
    {
        let e = ud - (b + up);
        assert(-((3 * g) * w) <= e * w <= (3 * g) * w);
        assert(ud * w == b * w + up * w + e * w);
    }
}

/// The power of the two last states.
proof fn lemma_power(s1: Single, s2: Single, coeff: Single)
    requires
        within(s1, -3, 3),
        within(s2, -1, 1),
        within(coeff, -8, 8),
    ensures
        ({
            let v = s1.times(s1).plus(s2.times(s2)).minus(coeff.times(s1).times(s2));
            let (s, a, c, w) = (units_of(s1), units_of(s2), units_of(coeff), whole());
            &&& laws::is_finite(v)
            &&& close((units_of(v) * w) * w, (s * s + a * a) * w - (c * s) * a, 21 * ((grain() * w) * w))
        }),
{
    let (w, g, q) = (whole(), grain(), quarter());
    drift::lemma_measures();
    drift::lemma_multiplied(s1, s1, 3, 3, 3);
    drift::lemma_multiplied(s2, s2, 1, 1, 1);
    drift::lemma_multiplied(coeff, s1, 8, 3, 6);
    let r = coeff.times(s1);
    drift::lemma_multiplied(r, s2, 6, 1, 2);
    let (x, y, z) = (s1.times(s1), s2.times(s2), r.times(s2));
    drift::lemma_plus(x, y, -4, 4, 4);
    let t = x.plus(y);
    drift::lemma_minus(t, z, -6, 6, 6);
    let v = t.minus(z);
    let (s, a, c) = (units_of(s1), units_of(s2), units_of(coeff));
    let (ux, uy, uz, ur, uv) = (units_of(x), units_of(y), units_of(z), units_of(r), units_of(v));
    let k = (g * w) * w;
    assert(close((ux * w) * w, (s * s) * w, 4 * k)) by (nonlinear_arith)
        requires
            close(ux * w, s * s, ((3 + 1) * g) * w),
            k == (g * w) * w,
            w > 0,
    ;
    assert(close((uy * w) * w, (a * a) * w, 2 * k)) by (nonlinear_arith)
        requires
            close(uy * w, a * a, ((1 + 1) * g) * w),
            k == (g * w) * w,
            w > 0,
    ;
    let (e, h) = (uz * w - ur * a, ur * w - c * s);
    assert((uz * w) * w == (c * s) * a + h * a + e * w) by (nonlinear_arith)
        requires
            e == uz * w - ur * a,
            h == ur * w - c * s,
    {
        assert((uz * w) * w == (ur * a) * w + e * w);
        assert((ur * a) * w == (ur * w) * a);
    }
    assert(-(3 * k) <= e * w <= 3 * k) by (nonlinear_arith)
        requires
            -(((2 + 1) * g) * w) <= e <= ((2 + 1) * g) * w,
            k == (g * w) * w,
            w > 0,
    ;
    assert(-(2 * k) <= h * a <= 2 * k) by (nonlinear_arith)
        requires
            -(((6 + 1) * g) * w) <= h <= ((6 + 1) * g) * w,
            -q <= a <= q,
            w == 4 * q,
            k == (g * w) * w,
            g > 0,
            q > 0,
    {
        let o = (7 * g) * w;
        assert(-(o * q) <= h * a <= o * q);
        assert(4 * (o * q) == 7 * k);
    }
    let d = uv - (ux + uy - uz);
    assert(-(10 * g) <= d <= 10 * g);
    assert((uv * w) * w == (ux * w) * w + (uy * w) * w - (uz * w) * w + (d * w) * w) by (nonlinear_arith)
        requires
            d == uv - (ux + uy - uz),
    ;
    assert(-(10 * k) <= (d * w) * w <= 10 * k) by (nonlinear_arith)
        requires
            -(10 * g) <= d <= 10 * g,
            k == (g * w) * w,
            w > 0,
    {
        assert(-((10 * g) * w) <= d * w <= (10 * g) * w);
    }
    assert((s * s + a * a) * w == (s * s) * w + (a * a) * w) by (nonlinear_arith);
}

/// From the states back to the samples: the power is the sum of the squares, and
/// twice the product times the cosine.
proof fn lemma_back(s: int, a: int, b: int, c: int, n: int, w: int, g: int, q: int)
    requires
        close(s * w, b * w + c * a, (6 * g) * w),
        close(c, 2 * n, 9 * g),
        -(3 * q) <= s <= 3 * q,
        -q <= a <= q,
        -q <= b <= q,
        w == 4 * q,
        q > 0,
        g > 0,
    ensures
        close(
            (s * s + a * a) * w - (c * s) * a,
            (a * a + b * b) * w + (2 * n) * (a * b),
            8 * ((g * w) * w),
        ),
{
    let k = (g * w) * w;
    let e = s * w - (b * w + c * a);
    // s s w less c s a is s b w.
    assert((s * s) * w - (c * s) * a == s * (b * w) + s * e) by (nonlinear_arith)
        requires
            e == s * w - (b * w + c * a),
    {
        assert((s * s) * w == s * (s * w));
        assert((c * s) * a == s * (c * a));
        assert(s * (s * w) == s * (b * w) + s * (c * a) + s * e);
    }
    assert(-(5 * k) <= s * e <= 5 * k) by (nonlinear_arith)
        requires
            -(3 * q) <= s <= 3 * q,
            -((6 * g) * w) <= e <= (6 * g) * w,
            w == 4 * q,
            k == (g * w) * w,
            g > 0,
            q > 0,
    {
        let o = (6 * g) * w;
        assert(-((3 * q) * o) <= s * e <= (3 * q) * o);
        assert(4 * ((3 * q) * o) == 18 * k);
    }
    assert(s * (b * w) == (b * b) * w + c * (a * b) + e * b) by (nonlinear_arith)
        requires
            e == s * w - (b * w + c * a),
    {
        assert(s * (b * w) == (s * w) * b);
        assert((s * w) * b == (b * w) * b + (c * a) * b + e * b);
    }
    assert(-(2 * k) <= e * b <= 2 * k) by (nonlinear_arith)
        requires
            -q <= b <= q,
            -((6 * g) * w) <= e <= (6 * g) * w,
            w == 4 * q,
            k == (g * w) * w,
            g > 0,
            q > 0,
    {
        let o = (6 * g) * w;
        assert(-(o * q) <= e * b <= o * q);
        assert(4 * (o * q) == 6 * k);
    }
    let (d, p) = (c - 2 * n, a * b);
    assert(c * p == (2 * n) * p + d * p) by (nonlinear_arith)
        requires
            d == c - 2 * n,
    ;
    assert(-(q * q) <= p <= q * q) by (nonlinear_arith)
        requires
            p == a * b,
            -q <= a <= q,
            -q <= b <= q,
    ;
    assert(-k <= d * p <= k) by (nonlinear_arith)
        requires
            -(9 * g) <= d <= 9 * g,
            -(q * q) <= p <= q * q,
            w == 4 * q,
            k == (g * w) * w,
            g > 0,
            q > 0,
    {
        assert(-((9 * g) * (q * q)) <= d * p <= (9 * g) * (q * q));
        assert(k == 16 * (g * (q * q)));
    }
    assert((s * s + a * a) * w == (s * s) * w + (a * a) * w && (a * a + b * b) * w == (a * a) * w + (b
        * b) * w) by (nonlinear_arith);
}

/// The level of a frequency in two samples after silence is how far the two turn
/// against each other: squared, it is the sum of their squares and twice their
/// product times the cosine of the angle.
pub proof fn law_level_of_two_samples(s: Seq<Single>, cosine: Single)
    requires
        s.len() >= 2,
        forall|i: int| 0 <= i < s.len() - 2 ==> is_zero(#[trigger] s[i]),
        within(s[s.len() - 2], -1, 1),
        within(s[s.len() - 1], -1, 1),
        within(cosine, -4, 4),
    ensures
        ({
            let (a, b) = (units_of(s[s.len() - 2]), units_of(s[s.len() - 1]));
            let l = units_of(takeoff::level(s, cosine));
            let w = whole();
            close(
                (l * l) * w,
                (a * a + b * b) * w + (2 * units_of(cosine)) * (a * b),
                40 * ((grain() * w) * w),
            )
        }),
{
    let (w, g, q) = (whole(), grain(), quarter());
    let two = Single { bits: 0x4000_0000 };
    drift::lemma_measures();
    drift::lemma_ends();
    bounded::lemma_fractions();
    assert(within(two, -8, 8)) by {
        assert(two.number().index < 0x7f80_0000);
    }
    drift::lemma_multiplied(two, cosine, 8, 4, 8);
    let coeff = two.times(cosine);
    let (c, n) = (units_of(coeff), units_of(cosine));
    assert(close(c, 2 * n, 9 * g)) by (nonlinear_arith)
        requires
            close(c * w, (8 * q) * n, ((8 + 1) * g) * w),
            w == 4 * q,
            q > 0,
    ;
    lemma_two(s, coeff);
    let (s1, s2) = takeoff::resonance(s, coeff);
    lemma_power(s1, s2, coeff);
    let (a, b) = (units_of(s[s.len() - 2]), units_of(s[s.len() - 1]));
    lemma_back(units_of(s1), a, b, c, n, w, g, q);
    let v = s1.times(s1).plus(s2.times(s2)).minus(coeff.times(s1).times(s2));
    let x = v.greater_of(Single::zero());
    drift::lemma_order(v, Single::zero());
    let (uv, ux) = (units_of(v), units_of(x));
    let k = (g * w) * w;
    let t = (a * a + b * b) * w + (2 * n) * (a * b);
    assert(close((uv * w) * w, t, 29 * k));
    assert(0 <= t <= (q * w) * w) by (nonlinear_arith)
        requires
            t == (a * a + b * b) * w + (2 * n) * (a * b),
            -q <= a <= q,
            -q <= b <= q,
            -w <= n <= w,
            w == 4 * q,
            q > 0,
    {
        let (y, z, p) = (a * a, b * b, a * b);
        assert(y + z + 2 * p == (a + b) * (a + b));
        assert(y + z - 2 * p == (a - b) * (a - b));
        assert((a + b) * (a + b) >= 0 && (a - b) * (a - b) >= 0);
        assert(y <= q * q && z <= q * q);
        if p >= 0 {
            assert(-(w * p) <= n * p <= w * p);
        } else {
            assert(w * p <= n * p <= -(w * p));
        }
        assert(t == (y + z) * w + 2 * (n * p));
        assert((y + z - 2 * p) * w >= 0 && (y + z + 2 * p) * w >= 0);
        assert((y + z) * w + 2 * (w * p) == (y + z + 2 * p) * w);
        assert((y + z) * w - 2 * (w * p) == (y + z - 2 * p) * w);
        assert(2 * (y + z) >= y + z + 2 * p && 2 * (y + z) >= y + z - 2 * p);
        assert(t <= 2 * ((y + z) * w));
        assert((y + z) * w <= (2 * (q * q)) * w);
        assert(4 * ((q * q) * w) == (q * w) * w);
    }
    assert(ux == if uv < 0 { 0 } else { uv });
    assert((uv * w) * w < 0 ==> uv < 0) by (nonlinear_arith)
        requires
            w > 0,
    ;
    assert(uv < 0 ==> (uv * w) * w < 0) by (nonlinear_arith)
        requires
            w > 0,
    ;
    assert(close((ux * w) * w, t, 29 * k)) by {
        if uv < 0 {
            assert((0 * w) * w == 0) by (nonlinear_arith);
            assert(k >= 0) by (nonlinear_arith)
                requires
                    k == (g * w) * w,
                    g > 0,
                    w > 0,
            ;
        }
    }
    assert(ux <= 4 * q) by (nonlinear_arith)
        requires
            (ux * w) * w <= t + 29 * k,
            t <= (q * w) * w,
            k == (g * w) * w,
            q == 0x100_0000 * g,
            g > 0,
            w > 0,
    {
        assert((ux * w) * w <= ((q + 29 * g) * w) * w);
        assert(ux * w <= (q + 29 * g) * w);
    }
    assert(within(x, 0, 4));
    normal::lemma_root(x);
    let l = units_of(x.sqrt());
    assert(takeoff::level(s, cosine) == x.sqrt());
    assert(close((l * l) * w, (ux * w) * w, 10 * k)) by (nonlinear_arith)
        requires
            close(l * l, ux * w, (10 * g) * w),
            k == (g * w) * w,
            w > 0,
    ;
    assert(k >= 0) by (nonlinear_arith)
        requires
            k == (g * w) * w,
            g > 0,
            w > 0,
    ;
}

} // verus!
