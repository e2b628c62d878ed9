//! Two close colors side by side through white balance, saturation and vibrance.
//!
//! These spread the channels away from the luma and leave the mean of the channels
//! where it is. So what two colors differ by is again followed for the mean and
//! for the distances between the channels.

use crate::color::adjustments;
use crate::color::agreement;
use crate::color::agreement::{least, most};
use crate::color::bounded;
use crate::color::bounded::{all_within, mixed};
use crate::color::drift;
use crate::color::drift::{grain, pair, quarter, units_of, whole, within};
use crate::color::lut::identity::close;
use crate::color::tones;
use crate::color::tones::{followed, toned};
use crate::ieee::grid;
use crate::ieee::grid::Format;
use crate::ieee::single::Single;
use vstd::arithmetic::power2::*;
use vstd::prelude::*;

verus! {

/// Two colors that are followed: how large their channels are, how far apart the
/// means of their channels, and how far apart the distances between them.
pub open spec fn hued(
    c: [Single; 3],
    d: [Single; 3],
    h: int,
    k: int,
    m: int,
    a: int,
    b: int,
) -> bool {
    let (x, y, z) = (units_of(c[0]), units_of(c[1]), units_of(c[2]));
    let (u, v, w) = (units_of(d[0]), units_of(d[1]), units_of(d[2]));
    &&& all_within(c, h)
    &&& all_within(d, h)
    &&& close(mixed(c), mixed(d), (k * grain()) * whole())
    &&& followed(x - y, u - v, m, a, b)
    &&& followed(x - z, u - w, m, a, b)
    &&& followed(y - z, v - w, m, a, b)
}

/// The parts of the white balance are small: together they move two channels
/// apart by little more than a half.
proof fn lemma_tilts(temperature: Single, tint: Single)
    requires
        within(temperature, -4, 4),
        within(tint, -4, 4),
    ensures
        ({
            let strength = Single { bits: adjustments::WB_STRENGTH };
            let t = units_of(temperature.times(strength));
            let g = units_of(tint.times(strength));
            let h = units_of(tint.times(strength).times(Single { bits: adjustments::HALF }));
            &&& -(13 * quarter() + 64 * grain()) <= 16 * t <= 13 * quarter() + 64 * grain()
            &&& -(13 * quarter() + 64 * grain()) <= 16 * g <= 13 * quarter() + 64 * grain()
            &&& -(13 * quarter() + 128 * grain()) <= 32 * h <= 13 * quarter() + 128 * grain()
        }),
{
    reveal(units_of);
    let f = Format::Single;
    let (q, g, p) = (quarter(), grain(), whole());
    let strength = Single { bits: adjustments::WB_STRENGTH };
    let half = Single { bits: adjustments::HALF };
    lemma2_to64();
    drift::lemma_measures();
    bounded::lemma_fractions();
    lemma_pow2_adds(20, 123);
    lemma_pow2_adds(4, 143);
    assert(0x3e50_0000nat / 0x80_0000nat == 124 && 0x3e50_0000nat % 0x80_0000nat == 0x50_0000);
    let e = pow2(123);
    assert((0x80_0000 + 0x50_0000) * e == 13 * (0x10_0000 * e)) by (nonlinear_arith);
    grid::lemma_units_increase(f, 0, 0x3e4c_cccd);
    grid::lemma_units_increase(f, 0x3e4c_cccd, 0x3e50_0000);
    grid::lemma_units_increase(f, 0x3e50_0000, 0x3e80_0000);
    assert(grid::units(f, 0) == 0);
    assert(units_of(Single { bits: 0x3e80_0000 }) == grid::units(f, 0x3e80_0000));
    let s = units_of(strength);
    assert(s == grid::units(f, 0x3e4c_cccd));
    assert(0 < 16 * s <= 13 * q);
    assert(0 * q == 0);
    drift::lemma_multiplied(temperature, strength, 4, 1, 1);
    drift::lemma_multiplied(tint, strength, 4, 1, 1);
    lemma_tilt(units_of(temperature), s, units_of(temperature.times(strength)));
    lemma_tilt(units_of(tint), s, units_of(tint.times(strength)));
    drift::lemma_multiplied(tint.times(strength), half, 1, 2, 1);
    let (x, y) = (units_of(tint.times(strength)), units_of(tint.times(strength).times(half)));
    assert(2 * y - x <= 4 * g && x - 2 * y <= 4 * g) by (nonlinear_arith)
        requires
            y * p <= x * (2 * q) + (2 * g) * p,
            y * p >= x * (2 * q) - (2 * g) * p,
            p == 4 * q,
            p > 0,
    ;
}

proof fn lemma_tilt(v: int, s: int, t: int)
    requires
        -whole() <= v <= whole(),
        0 < 16 * s <= 13 * quarter(),
        close(t * whole(), v * s, (2 * grain()) * whole()),
    ensures
        -(13 * quarter() + 64 * grain()) <= 16 * t <= 13 * quarter() + 64 * grain(),
{
    let (q, g, p) = (quarter(), grain(), whole());
    drift::lemma_measures();
    assert(-(p * s) <= v * s <= p * s) by (nonlinear_arith)
        requires
            -p <= v <= p,
            s > 0,
    ;
    assert(t <= s + 2 * g) by (nonlinear_arith)
        requires
            t * p <= p * s + (2 * g) * p,
            p > 0,
    ;
    assert(t >= -s - 2 * g) by (nonlinear_arith)
        requires
            t * p >= -(p * s) - (2 * g) * p,
            p > 0,
    ;
}

/// A distance after a shift that is the same for two colors.
proof fn lemma_shifted(x: int, y: int, s: int, t: int, f: int, k: int, a: int, b: int, i: int)
    requires
        followed(x, y, k, a, b),
        close(s, x + f, 50 * grain()),
        close(t, y + f, 50 * grain()),
        -(33 * quarter()) <= 16 * f <= 33 * quarter(),
        0 <= b <= 10000,
        64 * (a + 101) + 33 * b <= 64 * i,
    ensures
        followed(s, t, k + 100, i, b),
{
    let (q, g, p) = (quarter(), grain(), whole());
    drift::lemma_measures();
    let size = if x < 0 {
        -x
    } else {
        x
    };
    let after = if s < 0 {
        -s
    } else {
        s
    };
    assert((k + 100) * g == k * g + 100 * g) by (nonlinear_arith);
    let (d, e) = (x - y, s - t);
    assert(x * p - y * p == d * p && s * p - t * p == e * p) by (nonlinear_arith)
        requires
            d == x - y,
            e == s - t,
    ;
    assert(d * p - (100 * g) * p <= e * p <= d * p + (100 * g) * p) by (nonlinear_arith)
        requires
            d - 100 * g <= e <= d + 100 * g,
            p > 0,
    ;
    assert(16 * size <= 16 * after + 33 * q + 800 * g);
    assert((b * g) * size <= (b * g) * after + ((i - a - 100) * g) * p) by (nonlinear_arith)
        requires
            16 * size <= 16 * after + 33 * q + 800 * g,
            64 * (a + 101) + 33 * b <= 64 * i,
            0 <= b <= 10000,
            p == 4 * q,
            q == 0x100_0000 * g,
            g > 0,
    {
        assert((b * g) * (16 * size) <= (b * g) * (16 * after + 33 * q + 800 * g));
        assert((b * g) * (33 * q) == (33 * b) * (g * q));
        assert((b * g) * (800 * g) == (800 * b) * (g * g));
        assert(g * q == 0x100_0000 * (g * g));
        assert(g * g > 0);
        assert((800 * b) * (g * g) <= 64 * (g * q));
        assert((33 * b) * (g * q) <= (64 * (i - a - 101)) * (g * q));
        assert(16 * (((i - a - 100) * g) * p) == (64 * (i - a - 100)) * (g * q));
        assert((64 * (i - a - 101)) * (g * q) + 64 * (g * q) == (64 * (i - a - 100)) * (g * q));
    }
    assert((i * g) * p == (a * g) * p + (100 * g) * p + ((i - a - 100) * g) * p) by (nonlinear_arith);
}

/// A channel shifted twice.
proof fn lemma_twice(v: Single, t: Single, h: Single, less: bool)
    requires
        within(v, -11, 11),
        within(t, -1, 1),
        within(h, -1, 1),
    ensures
        ({
            let r = if less {
                v.minus(t)
            } else {
                v.plus(t)
            };
            let f = if less {
                -units_of(t)
            } else {
                units_of(t)
            };
            &&& within(r, -13, 13)
            &&& close(units_of(r), units_of(v) + f, 25 * grain())
            &&& within(r.plus(h), -13, 13)
            &&& close(units_of(r.plus(h)), units_of(v) + f + units_of(h), 25 * grain())
        }),
{
    drift::lemma_measures();
    drift::lemma_minus(v, t, -12, 12, 12);
    drift::lemma_plus(v, t, -12, 12, 12);
    drift::lemma_plus(v.minus(t), h, -13, 13, 13);
    drift::lemma_plus(v.plus(t), h, -13, 13, 13);
}

/// The mean after shifts that are the same for two colors.
proof fn lemma_mean_shifted(
    c: [Single; 3],
    d: [Single; 3],
    r: [Single; 3],
    s: [Single; 3],
    f: int,
    h: int,
    i: int,
    k: int,
)
    requires
        close(mixed(c), mixed(d), (k * grain()) * whole()),
        close(units_of(r[0]), units_of(c[0]) + f, 25 * grain()),
        close(units_of(r[1]), units_of(c[1]) + h, 25 * grain()),
        close(units_of(r[2]), units_of(c[2]) + i, 25 * grain()),
        close(units_of(s[0]), units_of(d[0]) + f, 25 * grain()),
        close(units_of(s[1]), units_of(d[1]) + h, 25 * grain()),
        close(units_of(s[2]), units_of(d[2]) + i, 25 * grain()),
    ensures
        close(mixed(r), mixed(s), ((k + 50) * grain()) * whole()),
{
    let (g, p) = (grain(), whole());
    bounded::lemma_weights();
    let a = units_of(Single { bits: adjustments::LUMA_RED });
    let b = units_of(Single { bits: adjustments::LUMA_GREEN });
    let e = units_of(Single { bits: adjustments::LUMA_BLUE });
    let x = (units_of(r[0]) - units_of(s[0])) - (units_of(c[0]) - units_of(d[0]));
    let y = (units_of(r[1]) - units_of(s[1])) - (units_of(c[1]) - units_of(d[1]));
    let z = (units_of(r[2]) - units_of(s[2])) - (units_of(c[2]) - units_of(d[2]));
    bounded::lemma_mean(x, y, z, a, b, e, -(50 * g), 50 * g);
    lemma_four(units_of(r[0]), units_of(s[0]), units_of(c[0]), units_of(d[0]), a);
    lemma_four(units_of(r[1]), units_of(s[1]), units_of(c[1]), units_of(d[1]), b);
    lemma_four(units_of(r[2]), units_of(s[2]), units_of(c[2]), units_of(d[2]), e);
    assert(((k + 50) * g) * p == (k * g) * p + (50 * g) * p) by (nonlinear_arith);
    assert(-(50 * g) * p == -((50 * g) * p)) by (nonlinear_arith);
}

proof fn lemma_four(r: int, s: int, c: int, d: int, a: int)
    ensures
        ((r - s) - (c - d)) * a == r * a - s * a - c * a + d * a,
{
    assert(((r - s) - (c - d)) * a == r * a - s * a - c * a + d * a) by (nonlinear_arith);
}

/// White balance.
pub(crate) proof fn lemma_balance(
    c: [Single; 3],
    d: [Single; 3],
    temperature: Single,
    tint: Single,
    e: int,
    k: int,
    m: int,
    a: int,
    b: int,
    i: int,
)
    requires
        toned(c, d, e, k, m, a, b),
        0 <= e <= 2000,
        within(temperature, -4, 4),
        within(tint, -4, 4),
        0 <= a,
        0 <= b <= 10000,
        64 * (a + 101) + 33 * b <= 64 * i,
    ensures
        hued(
            adjustments::with_balance(c, temperature, tint),
            adjustments::with_balance(d, temperature, tint),
            13,
            k + 50,
            m + 100,
            i,
            b,
        ),
{
    let (q, g) = (quarter(), grain());
    let strength = Single { bits: adjustments::WB_STRENGTH };
    drift::lemma_measures();
    tones::lemma_lie_within(c, e);
    tones::lemma_lie_within(d, e);
    bounded::lemma_tilts(temperature, tint);
    lemma_tilts(temperature, tint);
    let t = temperature.times(strength);
    let n = tint.times(strength);
    let h = n.times(Single { bits: adjustments::HALF });
    lemma_twice(c[0], t, h, false);
    lemma_twice(c[1], n, h, true);
    lemma_twice(c[2], t, h, true);
    lemma_twice(d[0], t, h, false);
    lemma_twice(d[1], n, h, true);
    lemma_twice(d[2], t, h, true);
    let on = adjustments::active(temperature) || adjustments::active(tint);
    let r = adjustments::with_balance(c, temperature, tint);
    let s = adjustments::with_balance(d, temperature, tint);
    let (ut, un, uh) = (units_of(t), units_of(n), units_of(h));
    let (f, l, o) = if on {
        (ut + uh, -un, -ut + uh)
    } else {
        (0, 0, 0)
    };
    lemma_mean_shifted(c, d, r, s, f, l, o, k);
    let (x, y, z) = (units_of(c[0]), units_of(c[1]), units_of(c[2]));
    let (u, v, w) = (units_of(d[0]), units_of(d[1]), units_of(d[2]));
    let (x2, y2, z2) = (units_of(r[0]), units_of(r[1]), units_of(r[2]));
    let (u2, v2, w2) = (units_of(s[0]), units_of(s[1]), units_of(s[2]));
    lemma_shifted(x - y, u - v, x2 - y2, u2 - v2, f - l, m, a, b, i);
    lemma_shifted(x - z, u - w, x2 - z2, u2 - w2, f - o, m, a, b, i);
    lemma_shifted(y - z, v - w, y2 - z2, v2 - w2, l - o, m, a, b, i);
}

/// White balance, after the bands.
pub(crate) proof fn lemma_balanced(c: [Single; 3], d: [Single; 3], temperature: Single, tint: Single)
    requires
        tones::through(c, d),
        within(temperature, -4, 4),
        within(tint, -4, 4),
    ensures
        hued(
            adjustments::with_balance(c, temperature, tint),
            adjustments::with_balance(d, temperature, tint),
            13,
            3284,
            9494,
            4773,
            4140,
        ),
{
    let r = adjustments::with_balance(c, temperature, tint);
    let s = adjustments::with_balance(d, temperature, tint);
    if toned(c, d, 800, 3234, 9394, 2688, 3844) {
        lemma_balance(c, d, temperature, tint, 800, 3234, 9394, 2688, 3844, 4773);
        lemma_looser(r, s, 13, 3284, 9494, 4773, 3844, 13, 3284, 9494, 4773, 4140);
    } else {
        lemma_balance(c, d, temperature, tint, 800, 2694, 7840, 1631, 4140, 4773);
        lemma_looser(r, s, 13, 2744, 7940, 4773, 4140, 13, 3284, 9494, 4773, 4140);
    }
}

/// A distance after one gain from 0 to 2.
proof fn lemma_widened(x: int, y: int, s: int, t: int, z: int, n: int, k: int, a: int, b: int)
    requires
        followed(x, y, k, a, b),
        close(s * whole(), x * z, (n * grain()) * whole()),
        close(t * whole(), y * z, (n * grain()) * whole()),
        0 <= z <= 2 * whole(),
        0 <= k,
        0 <= a,
        0 <= b <= 10000,
        0 <= n <= 1000,
    ensures
        followed(s, t, 2 * k + 2 * n, 2 * a + 2 * n + 1, b),
{
    let (q, g, p) = (quarter(), grain(), whole());
    drift::lemma_measures();
    let size = if x < 0 {
        -x
    } else {
        x
    };
    let after = if s < 0 {
        -s
    } else {
        s
    };
    let d = x - y;
    assert(x * z - y * z == d * z && x * p - y * p == d * p) by (nonlinear_arith)
        requires
            d == x - y,
    ;
    assert(-((k * g) * (2 * p)) <= d * z <= (k * g) * (2 * p)) by (nonlinear_arith)
        requires
            -(k * g) <= d <= k * g,
            0 <= z <= 2 * p,
            0 <= k,
            g > 0,
    {
        assert(k * g >= 0);
        assert(-((k * g) * z) <= d * z <= (k * g) * z);
        assert((k * g) * z <= (k * g) * (2 * p));
    }
    let c = 2 * k + 2 * n;
    assert((k * g) * (2 * p) + 2 * ((n * g) * p) == (c * g) * p) by (nonlinear_arith)
        requires
            c == 2 * k + 2 * n,
    ;
    assert(s - t <= c * g) by (nonlinear_arith)
        requires
            s * p - t * p <= (c * g) * p,
            p > 0,
    ;
    assert(t - s <= c * g) by (nonlinear_arith)
        requires
            t * p - s * p <= (c * g) * p,
            p > 0,
    ;
    // In parts of what it measures.
    let e = n * g;
    assert(size * z <= after * p + e * p) by (nonlinear_arith)
        requires
            -(e * p) <= s * p - x * z <= e * p,
            size == if x < 0 { -x } else { x },
            after == if s < 0 { -s } else { s },
            p > 0,
            z >= 0,
    ;
    let (i, j) = (a * g, b * g);
    assert(i >= 0 && j >= 0) by (nonlinear_arith)
        requires
            i == a * g,
            j == b * g,
            a >= 0,
            b >= 0,
            g > 0,
    ;
    let (t0, t1) = (i * p + j * size, (2 * i) * p + j * after + j * e);
    assert((i * p) * z <= ((2 * i) * p) * p) by (nonlinear_arith)
        requires
            0 <= z <= 2 * p,
            i >= 0,
            p > 0,
    {
        assert(i * p >= 0);
        assert((i * p) * z <= (i * p) * (2 * p));
    }
    assert(j * (size * z) <= j * (after * p + e * p)) by (nonlinear_arith)
        requires
            size * z <= after * p + e * p,
            j >= 0,
    ;
    assert(t0 * z == (i * p) * z + j * (size * z)) by (nonlinear_arith)
        requires
            t0 == i * p + j * size,
    ;
    assert(t1 * p == ((2 * i) * p) * p + j * (after * p + e * p)) by (nonlinear_arith)
        requires
            t1 == (2 * i) * p + j * after + j * e,
    ;
    let dz = d * z;
    assert(-(t0 * z) <= dz * p <= t0 * z) by (nonlinear_arith)
        requires
            -t0 <= d * p <= t0,
            dz == d * z,
            z >= 0,
    {
        assert(dz * p == (d * p) * z);
    }
    assert(dz <= t1) by (nonlinear_arith)
        requires
            dz * p <= t1 * p,
            p > 0,
    ;
    assert(dz >= -t1) by (nonlinear_arith)
        requires
            dz * p >= -(t1 * p),
            p > 0,
    ;
    assert(j * e <= g * p) by (nonlinear_arith)
        requires
            j == b * g,
            e == n * g,
            0 <= b <= 10000,
            0 <= n <= 1000,
            p == 4 * q,
            q == 0x100_0000 * g,
            g > 0,
    {
        assert((b * g) * (n * g) == (b * n) * (g * g));
        assert(b * n <= 10000000);
        assert((b * n) * (g * g) <= 10000000 * (g * g));
        assert(g * p == 0x400_0000 * (g * g));
        assert(g * g > 0);
    }
    assert(((2 * a + 2 * n + 1) * g) * p == (2 * i) * p + 2 * (e * p) + g * p) by (nonlinear_arith)
        requires
            i == a * g,
            e == n * g,
    ;
}

/// A color spread away from its luma.
pub open spec fn all_spread(c: [Single; 3], gain: Single) -> [Single; 3] {
    let l = adjustments::luma(c);
    [
        adjustments::spread(c[0], l, gain),
        adjustments::spread(c[1], l, gain),
        adjustments::spread(c[2], l, gain),
    ]
}

/// A channel spread away from its luma, against the mean.
proof fn lemma_against_mean(r: int, v: int, l: int, all: int, z: int, a: int)
    requires
        close(r * whole(), l * whole() + (v - l) * z, ((13 * a + 8) * grain()) * whole()),
        close(2 * (l * whole()), 2 * all, ((7 * a + 22) * grain()) * whole()),
        0 <= z <= 2 * whole(),
        0 <= a,
    ensures
        close(
            (r * whole()) * whole(),
            all * whole() + (v * whole() - all) * z,
            ((17 * a + 19) * grain()) * (whole() * whole()),
        ),
{
    let (g, p) = (grain(), whole());
    drift::lemma_measures();
    let x = r * p - (l * p + (v - l) * z);
    let y = l * p - all;
    assert((r * p) * p - (all * p + (v * p - all) * z) == x * p + y * (p - z)) by {
        assert(x * p == (r * p) * p - (l * p) * p - ((v - l) * z) * p) by (nonlinear_arith)
            requires
                x == r * p - (l * p + (v - l) * z),
        ;
        assert(y * (p - z) == (l * p) * p - all * p - (l * p) * z + all * z) by (nonlinear_arith)
            requires
                y == l * p - all,
        ;
        assert((v * p - all) * z == (v * p) * z - all * z) by (nonlinear_arith);
        assert(((v - l) * z) * p == (v * p) * z - (l * p) * z) by (nonlinear_arith);
    }
    let (e, f) = ((13 * a + 8) * g, (7 * a + 22) * g);
    assert(-(e * (p * p)) <= x * p <= e * (p * p)) by (nonlinear_arith)
        requires
            -(e * p) <= x <= e * p,
            p > 0,
    ;
    assert(-(f * (p * p)) <= 2 * (y * (p - z)) <= f * (p * p)) by (nonlinear_arith)
        requires
            -(f * p) <= 2 * y <= f * p,
            -p <= p - z <= p,
            p > 0,
            f >= 0,
    {
        assert(-((f * p) * p) <= (2 * y) * (p - z) <= (f * p) * p);
    }
    assert(f >= 0) by (nonlinear_arith)
        requires
            f == (7 * a + 22) * g,
            a >= 0,
            g > 0,
    ;
    let s = p * p;
    assert(2 * (e * s) + f * s <= 2 * (((17 * a + 19) * g) * s)) by (nonlinear_arith)
        requires
            e == (13 * a + 8) * g,
            f == (7 * a + 22) * g,
            a >= 0,
            g > 0,
            s == p * p,
    {
        assert(s >= 0);
        assert(2 * e + f <= 2 * ((17 * a + 19) * g));
        assert((2 * e + f) * s <= (2 * ((17 * a + 19) * g)) * s);
    }
}

/// Spreading the channels leaves the mean where it is.
proof fn lemma_mean_stays(c: [Single; 3], gain: Single, a: int)
    requires
        all_within(c, a),
        within(gain, 0, 8),
        0 <= a < 0x1_0000,
    ensures
        close(mixed(all_spread(c, gain)), mixed(c), ((17 * a + 19) * grain()) * whole()),
        forall|i: int|
            0 <= i < 3 ==> close(
                units_of(#[trigger] all_spread(c, gain)[i]) * whole(),
                units_of(adjustments::luma(c)) * whole() + (units_of(c[i]) - units_of(
                    adjustments::luma(c),
                )) * units_of(gain),
                ((13 * a + 8) * grain()) * whole(),
            ),
        forall|i: int|
            0 <= i < 3 ==> close(
                (units_of(#[trigger] all_spread(c, gain)[i]) * whole()) * whole(),
                mixed(c) * whole() + (units_of(c[i]) * whole() - mixed(c)) * units_of(gain),
                ((17 * a + 19) * grain()) * (whole() * whole()),
            ),
        all_within(all_spread(c, gain), 5 * a + 3),
{
    let (g, p) = (grain(), whole());
    drift::lemma_measures();
    bounded::lemma_luma(c, a);
    bounded::lemma_weights();
    let l = adjustments::luma(c);
    let r = all_spread(c, gain);
    agreement::lemma_spread(c[0], l, gain, a);
    agreement::lemma_spread(c[1], l, gain, a);
    agreement::lemma_spread(c[2], l, gain, a);
    let (z, all) = (units_of(gain), mixed(c));
    assert(0 * quarter() == 0);
    let (x, y, h) = (units_of(c[0]), units_of(c[1]), units_of(c[2]));
    let (i, j, k) = (units_of(r[0]), units_of(r[1]), units_of(r[2]));
    lemma_against_mean(i, x, units_of(l), all, z, a);
    lemma_against_mean(j, y, units_of(l), all, z, a);
    lemma_against_mean(k, h, units_of(l), all, z, a);
    let m = units_of(Single { bits: adjustments::LUMA_RED });
    let n = units_of(Single { bits: adjustments::LUMA_GREEN });
    let o = units_of(Single { bits: adjustments::LUMA_BLUE });
    let e = ((17 * a + 19) * g) * (p * p);
    let u = (i * p) * p - (all * p + (x * p - all) * z);
    let v = (j * p) * p - (all * p + (y * p - all) * z);
    let w = (k * p) * p - (all * p + (h * p - all) * z);
    bounded::lemma_mean(u, v, w, m, n, o, -e, e);
    lemma_mean_term(i, x, all, z, p, m, u);
    lemma_mean_term(j, y, all, z, p, n, v);
    lemma_mean_term(k, h, all, z, p, o, w);
    // The distances from the mean cancel.
    assert(((x * m) * p - all * m) * z + ((y * n) * p - all * n) * z + ((h * o) * p - all * o) * z == 0)
        by (nonlinear_arith)
        requires
            all == x * m + y * n + h * o,
            m + n + o == p,
    {
        let s = ((x * m) * p - all * m) + ((y * n) * p - all * n) + ((h * o) * p - all * o);
        assert(s == (x * m + y * n + h * o) * p - all * (m + n + o));
        assert(s == 0);
        assert(s * z == 0);
    }
    assert((all * m) * p + (all * n) * p + (all * o) * p == (all * p) * p) by (nonlinear_arith)
        requires
            m + n + o == p,
    ;
    let t = i * m + j * n + k * o;
    assert(((i * m) * p) * p + ((j * n) * p) * p + ((k * o) * p) * p == (t * p) * p) by (nonlinear_arith)
        requires
            t == i * m + j * n + k * o,
    ;
    let f = ((17 * a + 19) * g) * p;
    assert(e * p == (f * p) * p) by (nonlinear_arith)
        requires
            e == ((17 * a + 19) * g) * (p * p),
            f == ((17 * a + 19) * g) * p,
    ;
    assert(-e * p == -(e * p)) by (nonlinear_arith);
    assert(t - all <= f) by (nonlinear_arith)
        requires
            (t * p) * p - (all * p) * p <= (f * p) * p,
            p > 0,
    {
        assert((t * p) * p == t * (p * p));
        assert((all * p) * p == all * (p * p));
        assert((f * p) * p == f * (p * p));
        assert(p * p > 0);
    }
    assert(all - t <= f) by (nonlinear_arith)
        requires
            (all * p) * p - (t * p) * p <= (f * p) * p,
            p > 0,
    {
        assert((t * p) * p == t * (p * p));
        assert((all * p) * p == all * (p * p));
        assert((f * p) * p == f * (p * p));
        assert(p * p > 0);
    }
}

proof fn lemma_mean_term(i: int, x: int, all: int, z: int, p: int, m: int, u: int)
    requires
        u == (i * p) * p - (all * p + (x * p - all) * z),
    ensures
        u * m == ((i * m) * p) * p - (all * m) * p - ((x * m) * p - all * m) * z,
{
    assert(u * m == ((i * p) * p) * m - (all * p) * m - ((x * p - all) * z) * m) by (nonlinear_arith)
        requires
            u == (i * p) * p - (all * p + (x * p - all) * z),
    ;
    assert(((i * p) * p) * m == ((i * m) * p) * p) by (nonlinear_arith);
    assert((all * p) * m == (all * m) * p) by (nonlinear_arith);
    assert(((x * p - all) * z) * m == ((x * m) * p - all * m) * z) by (nonlinear_arith);
}

/// A saturated channel is no larger than ten and a quarter.
proof fn lemma_spread_size(r: int, v: int, l: int, z: int)
    requires
        close(r * whole(), l * whole() + (v - l) * z, (177 * grain()) * whole()),
        -(13 * quarter()) <= v <= 13 * quarter(),
        -(14 * quarter()) <= l <= 14 * quarter(),
        0 <= z <= 2 * whole(),
    ensures
        -(41 * quarter()) <= r <= 41 * quarter(),
{
    let (q, g, p) = (quarter(), grain(), whole());
    drift::lemma_measures();
    assert(l * p + (v - l) * z == l * (p - z) + v * z) by (nonlinear_arith);
    assert(-((14 * q) * p) <= l * (p - z) <= (14 * q) * p) by (nonlinear_arith)
        requires
            -(14 * q) <= l <= 14 * q,
            -p <= p - z <= p,
    ;
    assert(-((26 * q) * p) <= v * z <= (26 * q) * p) by (nonlinear_arith)
        requires
            -(13 * q) <= v <= 13 * q,
            0 <= z <= 2 * p,
            q > 0,
            p > 0,
    ;
    assert((177 * g) * p <= q * p) by (nonlinear_arith)
        requires
            q == 0x100_0000 * g,
            g > 0,
            p > 0,
    ;
    assert(r <= 41 * q) by (nonlinear_arith)
        requires
            r * p <= (14 * q) * p + (26 * q) * p + q * p,
            p > 0,
    ;
    assert(r >= -(41 * q)) by (nonlinear_arith)
        requires
            r * p >= -((14 * q) * p) - (26 * q) * p - q * p,
            p > 0,
    ;
}

/// The distance between two channels that were spread.
proof fn lemma_distance_spread(r: int, s: int, x: int, y: int, l: int, z: int, a: int)
    requires
        close(r * whole(), l * whole() + (x - l) * z, ((13 * a + 8) * grain()) * whole()),
        close(s * whole(), l * whole() + (y - l) * z, ((13 * a + 8) * grain()) * whole()),
    ensures
        close((r - s) * whole(), (x - y) * z, ((26 * a + 16) * grain()) * whole()),
{
    let (g, p) = (grain(), whole());
    assert((r - s) * p == r * p - s * p) by (nonlinear_arith);
    assert((x - y) * z == (x - l) * z - (y - l) * z) by (nonlinear_arith);
    assert(((26 * a + 16) * g) * p == 2 * (((13 * a + 8) * g) * p)) by (nonlinear_arith);
}

/// What saturation makes of one color.
proof fn lemma_saturated(c: [Single; 3], gain: Single)
    requires
        all_within(c, 13),
        within(gain, 0, 8),
    ensures
        ({
            let r = all_spread(c, gain);
            let (x, y, h) = (units_of(c[0]), units_of(c[1]), units_of(c[2]));
            let (x2, y2, h2) = (units_of(r[0]), units_of(r[1]), units_of(r[2]));
            let (e, p) = (354 * grain(), whole());
            &&& all_within(r, 41)
            &&& close(mixed(r), mixed(c), (240 * grain()) * p)
            &&& close((x2 - y2) * p, (x - y) * units_of(gain), e * p)
            &&& close((x2 - h2) * p, (x - h) * units_of(gain), e * p)
            &&& close((y2 - h2) * p, (y - h) * units_of(gain), e * p)
        }),
{
    bounded::lemma_luma(c, 13);
    lemma_mean_stays(c, gain, 13);
    let l = adjustments::luma(c);
    assert(within(l, -14, 14));
    lemma_two_spread(c[0], c[1], l, gain);
    lemma_two_spread(c[0], c[2], l, gain);
    lemma_two_spread(c[1], c[2], l, gain);
}

/// Two channels of one color, saturated.
proof fn lemma_two_spread(x: Single, y: Single, l: Single, gain: Single)
    requires
        within(x, -13, 13),
        within(y, -13, 13),
        within(l, -14, 14),
        within(gain, 0, 8),
    ensures
        ({
            let (r, s) = (adjustments::spread(x, l, gain), adjustments::spread(y, l, gain));
            &&& within(r, -41, 41)
            &&& within(s, -41, 41)
            &&& close(
                (units_of(r) - units_of(s)) * whole(),
                (units_of(x) - units_of(y)) * units_of(gain),
                (354 * grain()) * whole(),
            )
        }),
{
    drift::lemma_measures();
    assert(0 * quarter() == 0);
    agreement::lemma_spread(x, l, gain, 13);
    agreement::lemma_spread(y, l, gain, 13);
    let (r, s) = (adjustments::spread(x, l, gain), adjustments::spread(y, l, gain));
    lemma_spread_size(units_of(r), units_of(x), units_of(l), units_of(gain));
    lemma_spread_size(units_of(s), units_of(y), units_of(l), units_of(gain));
    lemma_distance_spread(
        units_of(r),
        units_of(s),
        units_of(x),
        units_of(y),
        units_of(l),
        units_of(gain),
        13,
    );
}

/// Two saturated colors.
proof fn lemma_both_saturated(c: [Single; 3], d: [Single; 3], gain: Single)
    requires
        hued(c, d, 13, 3284, 9494, 4773, 4140),
        within(gain, 0, 8),
    ensures
        hued(all_spread(c, gain), all_spread(d, gain), 41, 3764, 19696, 10255, 4140),
{
    let (g, p) = (grain(), whole());
    drift::lemma_measures();
    lemma_saturated(c, gain);
    lemma_saturated(d, gain);
    let (r, s) = (all_spread(c, gain), all_spread(d, gain));
    let z = units_of(gain);
    assert(0 * quarter() == 0);
    let (x, y, h) = (units_of(c[0]), units_of(c[1]), units_of(c[2]));
    let (u, v, w) = (units_of(d[0]), units_of(d[1]), units_of(d[2]));
    let (x2, y2, h2) = (units_of(r[0]), units_of(r[1]), units_of(r[2]));
    let (u2, v2, w2) = (units_of(s[0]), units_of(s[1]), units_of(s[2]));
    lemma_widened(x - y, u - v, x2 - y2, u2 - v2, z, 354, 9494, 4773, 4140);
    lemma_widened(x - h, u - w, x2 - h2, u2 - w2, z, 354, 9494, 4773, 4140);
    lemma_widened(y - h, v - w, y2 - h2, v2 - w2, z, 354, 9494, 4773, 4140);
    assert((3284 * g) * p + 2 * ((240 * g) * p) == (3764 * g) * p) by (nonlinear_arith);
}

/// Saturation.
pub(crate) proof fn lemma_saturation(c: [Single; 3], d: [Single; 3], saturation: Single)
    requires
        hued(c, d, 13, 3284, 9494, 4773, 4140),
        within(saturation, -4, 4),
    ensures
        hued(
            adjustments::with_saturation(c, saturation),
            adjustments::with_saturation(d, saturation),
            41,
            3764,
            19696,
            10255,
            4140,
        ),
{
    let gain = Single::one().plus(saturation);
    if adjustments::active(saturation) {
        bounded::lemma_gain(saturation);
        lemma_both_saturated(c, d, gain);
        assert(adjustments::with_saturation(c, saturation) == all_spread(c, gain));
        assert(adjustments::with_saturation(d, saturation) == all_spread(d, gain));
    } else {
        lemma_looser(c, d, 13, 3284, 9494, 4773, 4140, 41, 3764, 19696, 10255, 4140);
    }
}

/// Wider bounds hold too.
proof fn lemma_looser(
    c: [Single; 3],
    d: [Single; 3],
    h: int,
    k: int,
    m: int,
    a: int,
    b: int,
    f: int,
    l: int,
    n: int,
    i: int,
    j: int,
)
    requires
        hued(c, d, h, k, m, a, b),
        h <= f,
        k <= l,
        m <= n,
        a <= i,
        b <= j,
    ensures
        hued(c, d, f, l, n, i, j),
{
    let (g, p) = (grain(), whole());
    drift::lemma_measures();
    let (x, y, z) = (units_of(c[0]), units_of(c[1]), units_of(c[2]));
    let (u, v, w) = (units_of(d[0]), units_of(d[1]), units_of(d[2]));
    assert((k * g) * p <= (l * g) * p) by (nonlinear_arith)
        requires
            k <= l,
            g > 0,
            p > 0,
    ;
    tones::lemma_followed_looser(x - y, u - v, m, a, b, n, i, j);
    tones::lemma_followed_looser(x - z, u - w, m, a, b, n, i, j);
    tones::lemma_followed_looser(y - z, v - w, m, a, b, n, i, j);
    bounded::lemma_widen(c[0], h, f);
    bounded::lemma_widen(c[1], h, f);
    bounded::lemma_widen(c[2], h, f);
    bounded::lemma_widen(d[0], h, f);
    bounded::lemma_widen(d[1], h, f);
    bounded::lemma_widen(d[2], h, f);
}

/// A channel is off the mean by fifteen sixteenths, at most, of how far the
/// channels are apart.
proof fn lemma_offset(x: int, y: int, z: int, m: int, n: int, o: int, e: int)
    requires
        m + n + o == whole(),
        16 * m >= whole(),
        n >= 0,
        o >= 0,
        -e <= (x - y) * whole() <= e,
        -e <= (x - z) * whole() <= e,
    ensures
        -(15 * e) <= 16 * (x * whole() - (x * m + y * n + z * o)) <= 15 * e,
{
    let p = whole();
    drift::lemma_measures();
    let (i, j) = (x - y, x - z);
    let t = x * p - (x * m + y * n + z * o);
    assert(t == i * n + j * o) by (nonlinear_arith)
        requires
            t == x * p - (x * m + y * n + z * o),
            m + n + o == p,
            i == x - y,
            j == x - z,
    ;
    assert(-(e * n) <= (i * p) * n <= e * n) by (nonlinear_arith)
        requires
            -e <= i * p <= e,
            n >= 0,
    ;
    assert(-(e * o) <= (j * p) * o <= e * o) by (nonlinear_arith)
        requires
            -e <= j * p <= e,
            o >= 0,
    ;
    assert(t * p == (i * p) * n + (j * p) * o) by (nonlinear_arith)
        requires
            t == i * n + j * o,
    ;
    assert(e >= 0);
    assert(16 * (e * n + e * o) <= (15 * e) * p) by (nonlinear_arith)
        requires
            16 * (n + o) <= 15 * p,
            e >= 0,
    {
        assert(16 * (e * n + e * o) == e * (16 * (n + o)));
        assert(e * (16 * (n + o)) <= e * (15 * p));
    }
    assert((16 * t) * p == 16 * (t * p)) by (nonlinear_arith);
    assert(16 * t <= 15 * e) by (nonlinear_arith)
        requires
            (16 * t) * p <= (15 * e) * p,
            p > 0,
    ;
    assert(16 * t >= -(15 * e)) by (nonlinear_arith)
        requires
            (16 * t) * p >= -((15 * e) * p),
            p > 0,
    ;
}

/// Two channels spread by gains that are close.
proof fn lemma_hue(
    a: int,
    b: int,
    x: int,
    y: int,
    z: int,
    w: int,
    r: int,
    s: int,
    e: int,
    f: int,
    top: int,
    k: int,
)
    requires
        close(a, b, (3764 * grain()) * whole()),
        -(15 * e) <= 16 * (x - y) <= 15 * e,
        -(15 * f) <= 16 * y <= 15 * f,
        0 <= z <= top,
        close(z, w, k * grain()),
        0 <= k,
        close((r * whole()) * whole(), a * whole() + x * z, (716 * grain()) * (whole() * whole())),
        close((s * whole()) * whole(), b * whole() + y * w, (716 * grain()) * (whole() * whole())),
        e * top + f * (k * grain()) <= (29010 * grain()) * (whole() * whole()),
    ensures
        close(r, s, 32410 * grain()),
{
    let (g, p) = (grain(), whole());
    drift::lemma_measures();
    let pp = p * p;
    assert(pp > 0) by (nonlinear_arith)
        requires
            pp == p * p,
            p > 0,
    ;
    assert(x * z - y * w == (x - y) * z + y * (z - w)) by (nonlinear_arith);
    assert(-(15 * (e * top)) <= 16 * ((x - y) * z) <= 15 * (e * top)) by (nonlinear_arith)
        requires
            -(15 * e) <= 16 * (x - y) <= 15 * e,
            0 <= z <= top,
    {
        let d = x - y;
        assert(-((15 * e) * z) <= (16 * d) * z <= (15 * e) * z);
        assert(e >= 0);
        assert((15 * e) * z <= (15 * e) * top);
    }
    let h = k * g;
    assert(-(15 * (f * h)) <= 16 * (y * (z - w)) <= 15 * (f * h)) by (nonlinear_arith)
        requires
            -(15 * f) <= 16 * y <= 15 * f,
            -h <= z - w <= h,
    {
        let d = z - w;
        assert(-((15 * f) * h) <= (16 * y) * d <= (15 * f) * h);
    }
    assert(-((3764 * g) * pp) <= (a - b) * p <= (3764 * g) * pp) by (nonlinear_arith)
        requires
            -((3764 * g) * p) <= a - b <= (3764 * g) * p,
            p > 0,
            pp == p * p,
    ;
    assert((a - b) * p == a * p - b * p) by (nonlinear_arith);
    assert((r * p) * p == r * pp && (s * p) * p == s * pp) by (nonlinear_arith)
        requires
            pp == p * p,
    ;
    let gpp = g * pp;
    assert((3764 * g) * pp == 3764 * gpp && (716 * g) * pp == 716 * gpp && (29010 * g) * pp == 29010
        * gpp && (32410 * g) * pp == 32410 * gpp) by (nonlinear_arith)
        requires
            gpp == g * pp,
    ;
    assert(gpp > 0) by (nonlinear_arith)
        requires
            gpp == g * pp,
            g > 0,
            pp > 0,
    ;
    assert(r - s <= 32410 * g) by (nonlinear_arith)
        requires
            r * pp - s * pp <= (32410 * g) * pp,
            pp > 0,
    ;
    assert(s - r <= 32410 * g) by (nonlinear_arith)
        requires
            s * pp - r * pp <= (32410 * g) * pp,
            pp > 0,
    ;
}

/// How far the channels of a color are apart.
pub open spec fn span(c: [Single; 3]) -> int {
    units_of(most(c)) - units_of(least(c))
}

/// The distances of two colors differ by no more than `e` parts.
pub open spec fn apart(c: [Single; 3], d: [Single; 3], e: int) -> bool {
    let (x, y, z) = (units_of(c[0]), units_of(c[1]), units_of(c[2]));
    let (u, v, w) = (units_of(d[0]), units_of(d[1]), units_of(d[2]));
    &&& close((x - y) * whole(), (u - v) * whole(), e)
    &&& close((x - z) * whole(), (u - w) * whole(), e)
    &&& close((y - z) * whole(), (v - w) * whole(), e)
}

/// So do their spans.
proof fn lemma_spans(c: [Single; 3], d: [Single; 3], h: int, e: int)
    requires
        all_within(c, h),
        all_within(d, h),
        apart(c, d, e),
        0 <= e,
    ensures
        close(span(c) * whole(), span(d) * whole(), e),
{
    let p = whole();
    drift::lemma_measures();
    agreement::lemma_extremes(c, h);
    agreement::lemma_extremes(d, h);
    let (x, y, z) = (units_of(c[0]), units_of(c[1]), units_of(c[2]));
    let (u, v, w) = (units_of(d[0]), units_of(d[1]), units_of(d[2]));
    assert(forall|a: int, b: int| #[trigger] ((a - b) * p) == a * p - b * p) by (nonlinear_arith);
    assert(forall|a: int, b: int| a <= b ==> #[trigger] (a * p) <= #[trigger] (b * p))
        by (nonlinear_arith)
        requires
            p > 0,
    ;
    let (mc, lc, md, ld) = (
        units_of(most(c)),
        units_of(least(c)),
        units_of(most(d)),
        units_of(least(d)),
    );
    assert(mc * p - lc * p == span(c) * p && md * p - ld * p == span(d) * p);
    assert(u * p <= md * p && v * p <= md * p && w * p <= md * p);
    assert(ld * p <= u * p && ld * p <= v * p && ld * p <= w * p);
    assert(x * p <= mc * p && y * p <= mc * p && z * p <= mc * p);
    assert(lc * p <= x * p && lc * p <= y * p && lc * p <= z * p);
    assert((x - y) * p == x * p - y * p && (u - v) * p == u * p - v * p);
    assert((x - z) * p == x * p - z * p && (u - w) * p == u * p - w * p);
    assert((y - z) * p == y * p - z * p && (v - w) * p == v * p - w * p);
}

/// The distances of two colors that are followed differ by no more than what the
/// span of the first allows.
proof fn lemma_apart(c: [Single; 3], d: [Single; 3])
    requires
        hued(c, d, 41, 3764, 19696, 10255, 4140),
    ensures
        span(c) >= 0,
        apart(c, d, (19696 * grain()) * whole()),
        apart(c, d, (10255 * grain()) * whole() + (4140 * grain()) * span(c)),
{
    let (g, p) = (grain(), whole());
    drift::lemma_measures();
    agreement::lemma_extremes(c, 41);
    let (x, y, z) = (units_of(c[0]), units_of(c[1]), units_of(c[2]));
    let (u, v, w) = (units_of(d[0]), units_of(d[1]), units_of(d[2]));
    lemma_apart_pair(x - y, u - v, span(c));
    lemma_apart_pair(x - z, u - w, span(c));
    lemma_apart_pair(y - z, v - w, span(c));
}

proof fn lemma_apart_pair(x: int, y: int, s: int)
    requires
        followed(x, y, 19696, 10255, 4140),
        -s <= x <= s,
    ensures
        close(x * whole(), y * whole(), (19696 * grain()) * whole()),
        close(
            x * whole(),
            y * whole(),
            (10255 * grain()) * whole() + (4140 * grain()) * s,
        ),
{
    let (g, p) = (grain(), whole());
    drift::lemma_measures();
    let size = if x < 0 {
        -x
    } else {
        x
    };
    let e = 19696 * g;
    assert(y * p - e * p <= x * p <= y * p + e * p) by (nonlinear_arith)
        requires
            y - e <= x <= y + e,
            p > 0,
    ;
    assert((4140 * g) * size <= (4140 * g) * s) by (nonlinear_arith)
        requires
            size <= s,
            g > 0,
    ;
}

/// How vivid two colors are that are followed.
proof fn lemma_vivid(c: [Single; 3], d: [Single; 3])
    requires
        hued(c, d, 41, 3764, 19696, 10255, 4140),
    ensures
        ({
            let (v, w) = (adjustments::vividness(c), adjustments::vividness(d));
            let (a, b) = (units_of(v), units_of(w));
            &&& 0 <= a <= whole()
            &&& within(v, 0, 4) && within(w, 0, 4)
            &&& span(c) <= 82 * quarter() && span(d) <= 82 * quarter()
            &&& a == b || {
                &&& pair(v, w, 0, 4, 14561)
                &&& span(c) <= a + 20000 * grain()
                &&& span(d) <= a + 34400 * grain()
            }
            &&& a == b && a < whole() ==> {
                &&& span(c) <= a + 20000 * grain()
                &&& span(d) <= a + 34400 * grain()
            }
        }),
{
    let (q, g, p) = (quarter(), grain(), whole());
    drift::lemma_measures();
    assert(0 * q == 0 && 0 * g == 0);
    agreement::lemma_extremes(c, 41);
    agreement::lemma_extremes(d, 41);
    lemma_apart(c, d);
    let (s, t) = (span(c), span(d));
    let (x, y) = (most(c).minus(least(c)), most(d).minus(least(d)));
    drift::lemma_minus(most(c), least(c), -82, 82, 82);
    drift::lemma_minus(most(d), least(d), -82, 82, 82);
    drift::lemma_clamp(x);
    drift::lemma_clamp(y);
    bounded::lemma_clamp_any(x);
    bounded::lemma_clamp_any(y);
    let e = (19696 * g) * p;
    assert(e >= 0) by (nonlinear_arith)
        requires
            e == (19696 * g) * p,
            g > 0,
            p > 0,
    ;
    lemma_spans(c, d, 41, e);
    assert(s - t <= 19696 * g && t - s <= 19696 * g) by (nonlinear_arith)
        requires
            s * p - t * p <= (19696 * g) * p,
            t * p - s * p <= (19696 * g) * p,
            p > 0,
    ;
    if units_of(x) < p || units_of(y) < p {
        assert(s <= p + 20000 * g);
        let f = (10255 * g) * p + (4140 * g) * s;
        assert(f >= 0 && f <= (14397 * g) * p) by (nonlinear_arith)
            requires
                f == (10255 * g) * p + (4140 * g) * s,
                0 <= s <= p + 20000 * g,
                p == 4 * q,
                q == 0x100_0000 * g,
                g > 0,
        {
            assert((4140 * g) * s <= (4140 * g) * (p + 20000 * g));
            assert((4140 * g) * (p + 20000 * g) == (4140 * g) * p + 82800000 * (g * g));
            assert(82800000 * (g * g) <= (2 * g) * p) by {
                assert((2 * g) * p == 0x800_0000 * (g * g));
                assert(g * g > 0);
            }
        }
        lemma_spans(c, d, 41, f);
        assert(s - t <= 14397 * g && t - s <= 14397 * g) by (nonlinear_arith)
            requires
                s * p - t * p <= (14397 * g) * p,
                t * p - s * p <= (14397 * g) * p,
                p > 0,
        ;
        drift::lemma_clamped(x, y, 14561);
    }
}

/// One channel of two colors, spread by gains that are close.
proof fn lemma_channel(
    x: int,
    y: int,
    z: int,
    u: int,
    v: int,
    w: int,
    m: int,
    n: int,
    o: int,
    gain: int,
    other: int,
    r: int,
    s: int,
    e: int,
    f: int,
    top: int,
    k: int,
)
    requires
        m + n + o == whole(),
        16 * m >= whole(),
        n >= 0,
        o >= 0,
        close(x * m + y * n + z * o, u * m + v * n + w * o, (3764 * grain()) * whole()),
        close((x - y) * whole(), (u - v) * whole(), e),
        close((x - z) * whole(), (u - w) * whole(), e),
        -f <= (u - v) * whole() <= f,
        -f <= (u - w) * whole() <= f,
        0 <= gain <= top,
        close(gain, other, k * grain()),
        0 <= k,
        close(
            (r * whole()) * whole(),
            (x * m + y * n + z * o) * whole() + (x * whole() - (x * m + y * n + z * o)) * gain,
            (716 * grain()) * (whole() * whole()),
        ),
        close(
            (s * whole()) * whole(),
            (u * m + v * n + w * o) * whole() + (u * whole() - (u * m + v * n + w * o)) * other,
            (716 * grain()) * (whole() * whole()),
        ),
        e * top + f * (k * grain()) <= (29010 * grain()) * (whole() * whole()),
    ensures
        close(r, s, 32410 * grain()),
{
    let p = whole();
    let (a, b) = (x * m + y * n + z * o, u * m + v * n + w * o);
    let (i, j, l) = (x - u, y - v, z - w);
    assert((i - j) * p == (x - y) * p - (u - v) * p) by (nonlinear_arith)
        requires
            i == x - u,
            j == y - v,
    ;
    assert((i - l) * p == (x - z) * p - (u - w) * p) by (nonlinear_arith)
        requires
            i == x - u,
            l == z - w,
    ;
    lemma_offset(i, j, l, m, n, o, e);
    lemma_offset(u, v, w, m, n, o, f);
    assert(i * m == x * m - u * m && j * n == y * n - v * n && l * o == z * o - w * o && i * p == x * p
        - u * p) by (nonlinear_arith)
        requires
            i == x - u,
            j == y - v,
            l == z - w,
    ;
    lemma_hue(a, b, x * p - a, u * p - b, gain, other, r, s, e, f, top, k);
}

/// What the gains of a vibrance allow: the more vivid a color, the less far its
/// gain is from one.
proof fn lemma_allowance(a: int, s: int, t: int, e: int, f: int, top: int)
    requires
        0 <= a <= whole(),
        0 <= s <= a + 20000 * grain(),
        t <= a + 34400 * grain(),
        e == (10255 * grain()) * whole() + (4140 * grain()) * s,
        f == t * whole(),
        top == 2 * whole() - a + 17 * grain(),
    ensures
        e * top + f * (14595 * grain()) <= (29010 * grain()) * (whole() * whole()),
{
    let (q, g, p) = (quarter(), grain(), whole());
    drift::lemma_measures();
    let (pp, gp, ap) = (p * p, g * p, a * p);
    let u = 10257 * p + 4140 * a;
    assert(e <= g * u) by (nonlinear_arith)
        requires
            e == (10255 * g) * p + (4140 * g) * s,
            s <= a + 20000 * g,
            u == 10257 * p + 4140 * a,
            p == 4 * q,
            q == 0x100_0000 * g,
            g > 0,
    {
        assert((4140 * g) * s <= (4140 * g) * (a + 20000 * g));
        assert((4140 * g) * (a + 20000 * g) == (4140 * g) * a + 82800000 * (g * g));
        assert(g * u == (10257 * g) * p + (4140 * g) * a);
        assert((2 * g) * p == 0x800_0000 * (g * g));
        assert(g * g > 0);
    }
    assert(pp == 0x400_0000 * gp && gp > 0) by (nonlinear_arith)
        requires
            pp == p * p,
            gp == g * p,
            p == 4 * q,
            q == 0x100_0000 * g,
            g > 0,
    ;
    assert(u * top == u * (2 * p - a) + 17 * (u * g)) by (nonlinear_arith)
        requires
            top == 2 * p - a + 17 * g,
    ;
    assert(u * g <= 14397 * gp) by (nonlinear_arith)
        requires
            u == 10257 * p + 4140 * a,
            a <= p,
            gp == g * p,
            g > 0,
    ;
    assert(u * (2 * p - a) + 14595 * ap <= 28992 * pp) by (nonlinear_arith)
        requires
            u == 10257 * p + 4140 * a,
            ap == a * p,
            pp == p * p,
            0 <= a <= p,
    {
        assert(28992 * (p * p) - ((10257 * p + 4140 * a) * (2 * p - a) + 14595 * (a * p)) == (p - a) * (
        8478 * p - 4140 * a));
        assert((p - a) * (8478 * p - 4140 * a) >= 0);
    }
    assert(f <= ap + 34400 * gp) by (nonlinear_arith)
        requires
            f == t * p,
            t <= a + 34400 * g,
            ap == a * p,
            gp == g * p,
            p > 0,
    ;
    let all = u * top + 14595 * f;
    assert(all <= 29010 * pp);
    assert(e * top <= (g * u) * top) by (nonlinear_arith)
        requires
            e <= g * u,
            top >= 0,
    ;
    assert((g * u) * top + f * (14595 * g) == g * all) by (nonlinear_arith)
        requires
            all == u * top + 14595 * f,
    ;
    assert(g * all <= (29010 * g) * pp) by (nonlinear_arith)
        requires
            all <= 29010 * pp,
            g > 0,
    ;
}

/// The same where both colors are as vivid as can be.
proof fn lemma_allowance_full(e: int, f: int, top: int)
    requires
        e == (19696 * grain()) * whole(),
        f == (82 * quarter()) * whole(),
        top == whole() + 17 * grain(),
    ensures
        e * top + f * (34 * grain()) <= (29010 * grain()) * (whole() * whole()),
{
    let (q, g, p) = (quarter(), grain(), whole());
    drift::lemma_measures();
    assert(e * top + f * (34 * g) <= (29010 * g) * (p * p)) by (nonlinear_arith)
        requires
            e == (19696 * g) * p,
            f == (82 * q) * p,
            top == p + 17 * g,
            p == 4 * q,
            q == 0x100_0000 * g,
            g > 0,
    {
        let h = g * (p * p);
        assert(e * top == 19696 * h + (19696 * 17) * (g * (g * p)));
        assert(g * (g * p) <= h) by {
            assert(g <= p);
            assert(g * p <= p * p);
        }
        assert((0x400_0000 * g) * (g * p) == h);
        assert((0x400_0000 * g) * (g * p) == 0x400_0000 * (g * (g * p)));
        assert(4 * (f * (34 * g)) == (82 * 34) * h);
        assert((29010 * g) * (p * p) == 29010 * h);
        assert(h > 0);
    }
}

/// Two colors spread by gains that are close.
proof fn lemma_both_spread(
    c: [Single; 3],
    d: [Single; 3],
    gain: Single,
    other: Single,
    e: int,
    f: int,
    top: int,
    k: int,
)
    requires
        hued(c, d, 41, 3764, 19696, 10255, 4140),
        within(gain, 0, 8),
        within(other, 0, 8),
        apart(c, d, e),
        span(d) * whole() <= f,
        units_of(gain) <= top,
        close(units_of(gain), units_of(other), k * grain()),
        0 <= k,
        e * top + f * (k * grain()) <= (29010 * grain()) * (whole() * whole()),
    ensures
        agreement::alike(all_spread(c, gain), all_spread(d, other), -208, 208, 32410),
{
    let (q, g, p) = (quarter(), grain(), whole());
    drift::lemma_measures();
    bounded::lemma_weights();
    lemma_mean_stays(c, gain, 41);
    lemma_mean_stays(d, other, 41);
    agreement::lemma_extremes(d, 41);
    let (x, y, z) = (units_of(c[0]), units_of(c[1]), units_of(c[2]));
    let (u, v, w) = (units_of(d[0]), units_of(d[1]), units_of(d[2]));
    let (r, s) = (all_spread(c, gain), all_spread(d, other));
    let m = units_of(Single { bits: adjustments::LUMA_RED });
    let n = units_of(Single { bits: adjustments::LUMA_GREEN });
    let o = units_of(Single { bits: adjustments::LUMA_BLUE });
    let (a, b) = (units_of(gain), units_of(other));
    assert(0 * q == 0);
    lemma_span_bounds(u, v, w, span(d), f);
    assert((y - x) * p == -((x - y) * p) && (v - u) * p == -((u - v) * p)) by (nonlinear_arith);
    assert((z - x) * p == -((x - z) * p) && (w - u) * p == -((u - w) * p)) by (nonlinear_arith);
    assert((z - y) * p == -((y - z) * p) && (w - v) * p == -((v - w) * p)) by (nonlinear_arith);
    assert(mixed(c) == x * m + y * n + z * o && mixed(d) == u * m + v * n + w * o);
    assert(mixed(c) == y * n + x * m + z * o && mixed(d) == v * n + u * m + w * o);
    assert(mixed(c) == z * o + x * m + y * n && mixed(d) == w * o + u * m + v * n);
    let (r0, r1, r2) = (units_of(r[0]), units_of(r[1]), units_of(r[2]));
    let (s0, s1, s2) = (units_of(s[0]), units_of(s[1]), units_of(s[2]));
    lemma_channel(x, y, z, u, v, w, m, n, o, a, b, r0, s0, e, f, top, k);
    lemma_channel(y, x, z, v, u, w, n, m, o, a, b, r1, s1, e, f, top, k);
    lemma_channel(z, x, y, w, u, v, o, m, n, a, b, r2, s2, e, f, top, k);
}

proof fn lemma_span_bounds(u: int, v: int, w: int, s: int, f: int)
    requires
        s * whole() <= f,
        -s <= u - v <= s,
        -s <= u - w <= s,
        -s <= v - w <= s,
    ensures
        -f <= (u - v) * whole() <= f,
        -f <= (u - w) * whole() <= f,
        -f <= (v - w) * whole() <= f,
{
    let p = whole();
    drift::lemma_measures();
    assert(-(s * p) <= (u - v) * p <= s * p) by (nonlinear_arith)
        requires
            -s <= u - v <= s,
            p > 0,
    ;
    assert(-(s * p) <= (u - w) * p <= s * p) by (nonlinear_arith)
        requires
            -s <= u - w <= s,
            p > 0,
    ;
    assert(-(s * p) <= (v - w) * p <= s * p) by (nonlinear_arith)
        requires
            -s <= v - w <= s,
            p > 0,
    ;
}

/// The gains of a vibrance over two colors that are followed.
proof fn lemma_vibrance_gains(c: [Single; 3], d: [Single; 3], vibrance: Single)
    requires
        hued(c, d, 41, 3764, 19696, 10255, 4140),
        within(vibrance, -4, 4),
    ensures
        ({
            let (a, b) = (
                units_of(adjustments::vividness(c)),
                units_of(adjustments::vividness(d)),
            );
            let gain = adjustments::vibrance_gain(c, vibrance);
            let other = adjustments::vibrance_gain(d, vibrance);
            &&& within(gain, 0, 8) && within(other, 0, 8)
            &&& units_of(gain) <= 2 * whole() - a + 17 * grain()
            &&& close(units_of(gain), units_of(other), 14595 * grain())
            &&& a == b ==> close(units_of(gain), units_of(other), 34 * grain())
        }),
{
    let (v, w) = (adjustments::vividness(c), adjustments::vividness(d));
    drift::lemma_measures();
    assert(0 * quarter() == 0 && 0 * grain() == 0);
    lemma_vivid(c, d);
    bounded::lemma_vibrance_gain(c, vibrance, 41);
    bounded::lemma_vibrance_gain(d, vibrance, 41);
    if units_of(v) == units_of(w) {
        agreement::lemma_gains(v, w, vibrance, 0);
    } else {
        agreement::lemma_gains(v, w, vibrance, 14561);
    }
}

/// Vibrance.
pub(crate) proof fn lemma_vibrance(c: [Single; 3], d: [Single; 3], vibrance: Single)
    requires
        hued(c, d, 41, 3764, 19696, 10255, 4140),
        within(vibrance, -4, 4),
    ensures
        agreement::alike(
            adjustments::with_vibrance(c, vibrance),
            adjustments::with_vibrance(d, vibrance),
            -208,
            208,
            32410,
        ),
{
    let (q, g, p) = (quarter(), grain(), whole());
    drift::lemma_measures();
    lemma_apart(c, d);
    if adjustments::active(vibrance) {
        let gain = adjustments::vibrance_gain(c, vibrance);
        let other = adjustments::vibrance_gain(d, vibrance);
        let (a, b) = (units_of(adjustments::vividness(c)), units_of(adjustments::vividness(d)));
        lemma_vivid(c, d);
        lemma_vibrance_gains(c, d, vibrance);
        if a == b && a == p {
            let (e, f, top) = ((19696 * g) * p, (82 * q) * p, p + 17 * g);
            lemma_allowance_full(e, f, top);
            let t = span(d);
            assert(t * p <= f) by (nonlinear_arith)
                requires
                    t <= 82 * q,
                    f == (82 * q) * p,
                    p > 0,
            ;
            lemma_both_spread(c, d, gain, other, e, f, top, 34);
        } else {
            let (e, f, top) = (
                (10255 * g) * p + (4140 * g) * span(c),
                span(d) * p,
                2 * p - a + 17 * g,
            );
            lemma_allowance(a, span(c), span(d), e, f, top);
            lemma_both_spread(c, d, gain, other, e, f, top, 14595);
        }
        assert(adjustments::with_vibrance(c, vibrance) == all_spread(c, gain));
        assert(adjustments::with_vibrance(d, vibrance) == all_spread(d, other));
    } else {
        lemma_channels(c, d);
    }
}

/// The channels of two colors that are followed are close.
proof fn lemma_channels(c: [Single; 3], d: [Single; 3])
    requires
        hued(c, d, 41, 3764, 19696, 10255, 4140),
    ensures
        agreement::alike(c, d, -208, 208, 32410),
{
    let (g, p) = (grain(), whole());
    drift::lemma_measures();
    bounded::lemma_weights();
    let (x, y, z) = (units_of(c[0]), units_of(c[1]), units_of(c[2]));
    let (u, v, w) = (units_of(d[0]), units_of(d[1]), units_of(d[2]));
    let m = units_of(Single { bits: adjustments::LUMA_RED });
    let n = units_of(Single { bits: adjustments::LUMA_GREEN });
    let o = units_of(Single { bits: adjustments::LUMA_BLUE });
    lemma_split(x, u, m);
    lemma_split(y, v, n);
    lemma_split(z, w, o);
    lemma_one_channel(x - u, y - v, z - w, m, n, o);
    lemma_one_channel(y - v, x - u, z - w, n, m, o);
    lemma_one_channel(z - w, x - u, y - v, o, m, n);
    bounded::lemma_widen(c[0], 41, 208);
    bounded::lemma_widen(c[1], 41, 208);
    bounded::lemma_widen(c[2], 41, 208);
    bounded::lemma_widen(d[0], 41, 208);
    bounded::lemma_widen(d[1], 41, 208);
    bounded::lemma_widen(d[2], 41, 208);
}

proof fn lemma_split(x: int, u: int, m: int)
    ensures
        (x - u) * m == x * m - u * m,
{
    assert((x - u) * m == x * m - u * m) by (nonlinear_arith);
}

proof fn lemma_one_channel(i: int, j: int, l: int, m: int, n: int, o: int)
    requires
        m + n + o == whole(),
        m >= 0,
        n >= 0,
        o >= 0,
        -(19696 * grain()) <= i - j <= 19696 * grain(),
        -(19696 * grain()) <= i - l <= 19696 * grain(),
        -((3764 * grain()) * whole()) <= i * m + j * n + l * o <= (3764 * grain()) * whole(),
    ensures
        -(32410 * grain()) <= i <= 32410 * grain(),
{
    let (g, p) = (grain(), whole());
    drift::lemma_measures();
    let e = 19696 * g;
    bounded::lemma_mean(i - i, i - j, i - l, m, n, o, -e, e);
    let t = i * m + j * n + l * o;
    assert((i - i) * m + (i - j) * n + (i - l) * o == i * p - t) by (nonlinear_arith)
        requires
            m + n + o == p,
            t == i * m + j * n + l * o,
    ;
    assert(-e * p == -(e * p)) by (nonlinear_arith);
    assert(i <= 3764 * g + e) by (nonlinear_arith)
        requires
            i * p <= (3764 * g) * p + e * p,
            p > 0,
    ;
    assert(i >= -(3764 * g) - e) by (nonlinear_arith)
        requires
            i * p >= -((3764 * g) * p) - e * p,
            p > 0,
    ;
}

} // verus!
