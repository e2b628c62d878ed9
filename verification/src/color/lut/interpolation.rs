//! How close interpolation comes to exact interpolation.
//!
//! A table that holds values from 0 to 1 is sampled within a few millionths of
//! its exact trilinear interpolation. So an entry is met at its own position,
//! and no sample leaves the range of the entries by more than rounding.
//!
//! Amounts are counted in units of the smallest value, as elsewhere; the exact
//! interpolation of values scaled by some factor is scaled once more by one for
//! each axis.

use crate::color::lut;
use crate::color::lut::gpu;
use crate::color::lut::identity::{amount, close, plain, slip, unity};
use crate::ieee::grid;
use crate::ieee::grid::Format;
use crate::ieee::laws;
use crate::ieee::number;
use crate::ieee::single::Single;
use vstd::arithmetic::div_mod::*;
use vstd::arithmetic::power2::*;
use vstd::prelude::*;

verus! {

/// Below 256, neighbouring magnitudes are at most 256 slips apart.
proof fn lemma_wide_gap(k: nat)
    requires
        k < 0x4380_0000,
    ensures
        grid::units(Format::Single, k + 1) - grid::units(Format::Single, k) <= 256 * slip(),
{
    let f = Format::Single;
    let b = f.binade();
    let (e, r) = grid::lemma_split(f, k);
    assert(e <= 133) by (nonlinear_arith)
        requires
            k == e * b + r,
            k < 135 * b,
            e == 0 || b <= r,
            b > 0,
    ;
    grid::lemma_units_at(f, e, (r + 1) as nat);
    assert(k + 1 == e * b + (r + 1));
    let p = pow2(e);
    assert((r + 1) * p == r * p + p) by (nonlinear_arith);
    lemma2_to64();
    lemma_pow2_adds(8, 125);
    if e < 133 {
        lemma_pow2_strictly_increases(e, 133);
    }
}

/// Rounding a value up to 256 slips by at most 2^-17.
proof fn lemma_wide_round(n: nat, d: nat)
    requires
        d > 0,
        n <= 256 * unity() * d,
    ensures
        ({
            let k = grid::round_magnitude(Format::Single, n, d);
            &&& k <= 0x4380_0000
            &&& close(grid::units(Format::Single, k) as int * d, n as int, 128 * slip() * d)
        }),
{
    let f = Format::Single;
    let top = 0x4380_0000nat;
    lut::identity::lemma_sizes();
    lemma2_to64();
    lemma_pow2_adds(8, 149);
    lemma_pow2_adds(23, 134);
    assert(grid::units(f, top) == 256 * unity()) by {
        assert(top / 0x80_0000 == 135 && top % 0x80_0000 == 0);
        assert(grid::units(f, top) == 0x80_0000 * pow2(134));
    }
    laws::law_nearest_exists(f, n, d);
    let k = grid::round_magnitude(f, n, d);
    laws::law_rounding_keeps_values(f, top, d);
    assert(n * d <= (grid::units(f, top) * d) * d) by (nonlinear_arith)
        requires
            n <= grid::units(f, top) * d,
            d > 0,
    ;
    laws::law_rounding_keeps_order(f, n, d, grid::units(f, top) * d, d);
    let u = grid::units(f, k) as int;
    let s = slip();
    if k > 0 {
        lemma_wide_gap((k - 1) as nat);
        let w = grid::units(f, (k - 1) as nat) as int;
        assert((w + u) * d <= 2 * n);
        assert(u * d <= n + 128 * s * d) by (nonlinear_arith)
            requires
                (w + u) * d <= 2 * n,
                u - w <= 256 * s,
                d > 0,
        ;
    } else {
        assert(u * d <= n + 128 * s * d) by (nonlinear_arith)
            requires
                u == 0,
                s > 0,
                d > 0,
                n >= 0,
        ;
    }
    if k < top {
        lemma_wide_gap(k);
        let w = grid::units(f, k + 1) as int;
        assert(2 * n <= (u + w) * d);
        assert(n <= u * d + 128 * s * d) by (nonlinear_arith)
            requires
                2 * n <= (u + w) * d,
                w - u <= 256 * s,
                d > 0,
        ;
    } else {
        assert(n <= u * d);
        assert(128 * s * d > 0) by (nonlinear_arith)
            requires
                s > 0,
                d > 0,
        ;
    }
}

/// Mixing comes within five slips of the exact mix.
proof fn lemma_mix(a: Single, b: Single, f: Single, h: int)
    requires
        plain(a),
        plain(b),
        plain(f),
        amount(a) <= unity() + h,
        amount(b) <= unity() + h,
        0 <= h <= 30 * slip(),
        amount(f) <= unity(),
    ensures
        plain(lut::mixed(a, b, f)),
        close(
            amount(lut::mixed(a, b, f)) * unity(),
            amount(a) * (unity() - amount(f)) + amount(b) * amount(f),
            5 * slip() * unity(),
        ),
        amount(lut::mixed(a, b, f)) <= unity() + h + 5 * slip(),
{
    let one = unity();
    let s = slip();
    lut::identity::lemma_sizes();
    let g = Single::one().minus(f);
    lut::identity::lemma_one_less(f);
    let (v, w) = (a.times(g), b.times(f));
    lut::identity::lemma_product(a, g);
    lut::identity::lemma_product(b, f);
    let (x, y, z, u) = (amount(a), amount(b), amount(f), amount(g));
    let (p, q) = (amount(v), amount(w));
    let exact = x * (one - z) + y * z;
    assert(close((p + q) * one, exact, 4 * s * one)) by (nonlinear_arith)
        requires
            close(p * one, x * u, s * one),
            close(q * one, y * z, s * one),
            close(u, one - z, s),
            0 <= x <= one + 30 * s,
            one == 0x100_0000 * s,
            s > 0,
            exact == x * (one - z) + y * z,
    ;
    assert(exact <= (one + h) * one) by (nonlinear_arith)
        requires
            exact == x * (one - z) + y * z,
            x <= one + h,
            y <= one + h,
            0 <= z <= one,
    ;
    assert(p + q <= one + h + 4 * s) by (nonlinear_arith)
        requires
            (p + q) * one <= (one + h) * one + 4 * s * one,
            one > 0,
    ;
    lut::identity::lemma_sum(v, w);
    let m = amount(lut::mixed(a, b, f));
    assert(close(m * one, exact, 5 * s * one)) by (nonlinear_arith)
        requires
            close((p + q) * one, exact, 4 * s * one),
            close(m, p + q, s),
            one > 0,
    ;
}

/// Mixing stays between the two values, up to five slips.
proof fn lemma_mix_between(a: Single, b: Single, f: Single, h: int, low: int, high: int)
    requires
        plain(a),
        plain(b),
        plain(f),
        low <= amount(a) <= high,
        low <= amount(b) <= high,
        high <= unity() + h,
        0 <= h <= 30 * slip(),
        amount(f) <= unity(),
    ensures
        plain(lut::mixed(a, b, f)),
        low - 5 * slip() <= amount(lut::mixed(a, b, f)) <= high + 5 * slip(),
{
    lemma_mix(a, b, f, h);
    lut::identity::lemma_sizes();
    let one = unity();
    let s = slip();
    let (x, y, z, m) = (amount(a), amount(b), amount(f), amount(lut::mixed(a, b, f)));
    assert(low * one <= x * (one - z) + y * z <= high * one) by (nonlinear_arith)
        requires
            low <= x <= high,
            low <= y <= high,
            0 <= z <= one,
    ;
    assert(low - 5 * s <= m <= high + 5 * s) by (nonlinear_arith)
        requires
            close(m * one, x * (one - z) + y * z, 5 * s * one),
            low * one <= x * (one - z) + y * z <= high * one,
            one > 0,
    ;
}

/// A position from 0 to 1, counted in entries `0..=last`.
pub(crate) proof fn lemma_scaled(p: Single, last: nat) -> (v: Single)
    requires
        plain(p),
        amount(p) <= unity(),
        last <= 256,
    ensures
        v == p.times(Single::from_u64(last as u64)),
        plain(v),
        laws::is_finite(v),
        close(amount(v), amount(p) * last, 128 * slip()),
        0 <= amount(v) <= last * unity(),
{
    let f = Format::Single;
    let one = unity();
    let edge = Single::from_u64(last as u64);
    lut::identity::lemma_sizes();
    laws::law_small_integers_are_exact(last as u64);
    let v = p.times(edge);
    let a = amount(p);
    let n = (a * (last * one)) as nat;
    assert(0 <= a * (last * one) <= (last * one) * one) by (nonlinear_arith)
        requires
            0 <= a <= one,
            last >= 0,
            one > 0,
    ;
    assert((last * one) * one <= 256 * one * one) by (nonlinear_arith)
        requires
            last <= 256,
            one > 0,
    ;
    lemma_wide_round(n, one as nat);
    laws::law_nearest_exists(f, n, one as nat);
    let k = grid::round_magnitude(f, n, one as nat);
    lut::identity::lemma_finite(p);
    assert(v.number().index == k);
    if p.number().negative {
        assert(n == 0) by (nonlinear_arith)
            requires
                n == a * (last * one),
                a == 0,
        ;
        number::lemma_round_zero(f, one as nat);
    }
    let x = amount(v);
    // The product is at most the edge.
    let e = edge.number().index as nat;
    laws::law_rounding_keeps_values(f, e, one as nat);
    assert(n * one <= (grid::units(f, e) * one) * one) by (nonlinear_arith)
        requires
            n <= (last * one) * one,
            grid::units(f, e) == last * one,
            one > 0,
    ;
    laws::law_rounding_keeps_order(f, n, one as nat, (grid::units(f, e) * one) as nat, one as nat);
    grid::lemma_units_increase(f, k, e);
    assert(close(x, a * last, 128 * slip())) by (nonlinear_arith)
        requires
            close(x * one, n as int, 128 * slip() * one),
            n == a * (last * one),
            one > 0,
    ;
    v
}

/// Where a value up to `last` falls among entries `0..=last`.
proof fn lemma_split(v: Single, last: nat) -> (r: lut::Between)
    requires
        plain(v),
        laws::is_finite(v),
        last < 0x100_0000,
        amount(v) <= last * unity(),
    ensures
        r == lut::between(v, last),
        r.low <= last,
        r.high <= last,
        plain(r.past),
        amount(r.past) <= unity(),
        r.low == amount(v) / unity(),
        r.low < last ==> r.high == r.low + 1,
        r.low == last ==> amount(v) == last * unity(),
        close(amount(r.past), amount(v) % unity(), slip()),
{
    let f = Format::Single;
    let one = unity();
    lut::identity::lemma_sizes();
    let x = amount(v);
    let w = x / one;
    let rest = x % one;
    lemma_fundamental_div_mod(x, one);
    lemma_mod_bound(x, one);
    assert(0 <= w <= last) by (nonlinear_arith)
        requires
            x == one * w + rest,
            0 <= rest < one,
            0 <= x <= last * one,
            one > 0,
    ;
    if v.number().negative {
        assert(x == 0);
        assert(0int / one == 0);
    }
    assert(v.trunc_u64() == w);
    let r = lut::between(v, last);
    assert(w == last ==> x == last * one) by (nonlinear_arith)
        requires
            x == one * w + rest,
            rest >= 0,
            x <= last * one,
    ;
    lemma_rest(v, w as nat, rest);
    r
}

/// What is left of a value behind its whole part.
proof fn lemma_rest(v: Single, w: nat, rest: int)
    requires
        plain(v),
        laws::is_finite(v),
        w < 0x100_0000,
        0 <= rest < unity(),
        amount(v) == unity() * w + rest,
    ensures
        plain(v.minus(Single::from_u64(w as u64))),
        amount(v.minus(Single::from_u64(w as u64))) <= unity(),
        close(amount(v.minus(Single::from_u64(w as u64))), rest, slip()),
{
    let f = Format::Single;
    let one = unity();
    lut::identity::lemma_sizes();
    let low = Single::from_u64(w as u64);
    laws::law_small_integers_are_exact(w as u64);
    let past = v.minus(low);
    assert(amount(v) - w * one == rest) by (nonlinear_arith)
        requires
            amount(v) == one * w + rest,
    ;
    if rest == 0 {
        number::lemma_round_zero(f, 1);
        assert(past.number().index == 0);
    } else {
        lut::identity::lemma_round_error(rest as nat, 1);
        laws::law_nearest_exists(f, rest as nat, 1);
        let j = grid::round_magnitude(f, rest as nat, 1);
        laws::law_rounding_keeps_values(f, 0x3f80_0000, 1);
        laws::law_rounding_keeps_order(f, rest as nat, 1, (one * 1) as nat, 1);
        assert(grid::units(f, j) * 1 == grid::units(f, j));
        grid::lemma_units_increase(f, j, 0x3f80_0000);
        assert(!v.number().negative);
        assert(past.number() == (number::Number { negative: false, index: j as u64 }));
    }
}

/// Exact interpolation between the values at whole positions; `y` is a position
/// in units.
pub open spec fn exact(a: spec_fn(int) -> int, y: int) -> int {
    a(y / unity()) * (unity() - y % unity()) + a(y / unity() + 1) * (y % unity())
}

/// Values from 0 to `top`, at the positions `0..=last`.
pub open spec fn within(a: spec_fn(int) -> int, last: nat, top: int) -> bool {
    forall|i: int| 0 <= i <= last ==> 0 <= #[trigger] a(i) <= top
}

/// Interpolation stays between the values.
pub(crate) proof fn lemma_exact_within(a: spec_fn(int) -> int, last: nat, top: int, y: int)
    requires
        within(a, last, top),
        0 <= y <= last * unity(),
        top >= 0,
    ensures
        0 <= exact(a, y) <= top * unity(),
{
    let one = unity();
    lut::identity::lemma_sizes();
    lemma_fundamental_div_mod(y, one);
    lemma_mod_bound(y, one);
    let (i, f) = (y / one, y % one);
    assert(0 <= i <= last && (i == last ==> f == 0)) by (nonlinear_arith)
        requires
            y == one * i + f,
            0 <= f < one,
            0 <= y <= last * one,
            one > 0,
    ;
    assert(0 <= a(i) <= top);
    if i < last {
        assert(0 <= a(i + 1) <= top);
        let (p, q) = (a(i), a(i + 1));
        assert(0 <= p * (one - f) + q * f <= top * one) by (nonlinear_arith)
            requires
                0 <= p <= top,
                0 <= q <= top,
                0 <= f <= one,
        ;
    } else {
        let (p, q) = (a(i), a(i + 1));
        assert(0 <= p * (one - f) + q * f <= top * one) by (nonlinear_arith)
            requires
                0 <= p <= top,
                f == 0,
                one > 0,
        ;
    }
}

/// Interpolation moves no faster than from one value to the next.
proof fn lemma_exact_slope(a: spec_fn(int) -> int, last: nat, top: int, x: int, y: int)
    requires
        within(a, last, top),
        0 <= x <= y <= last * unity(),
        y - x <= unity(),
        top >= 0,
    ensures
        close(exact(a, y), exact(a, x), top * (y - x)),
{
    let one = unity();
    lut::identity::lemma_sizes();
    lemma_fundamental_div_mod(x, one);
    lemma_fundamental_div_mod(y, one);
    lemma_mod_bound(x, one);
    lemma_mod_bound(y, one);
    let (i, f) = (x / one, x % one);
    let (j, g) = (y / one, y % one);
    assert((i == j || j == i + 1) && 0 <= i && j <= last && (j == last ==> g == 0)) by (
    nonlinear_arith)
        requires
            x == one * i + f,
            y == one * j + g,
            0 <= f < one,
            0 <= g < one,
            0 <= x <= y <= last * one,
            y - x <= one,
            one > 0,
    ;
    let (p, q) = (a(i), a(i + 1));
    assert(0 <= p <= top);
    if i == j {
        if i < last {
            assert(0 <= q <= top);
            assert(close(
                p * (one - g) + q * g,
                p * (one - f) + q * f,
                top * (y - x),
            )) by (nonlinear_arith)
                requires
                    0 <= p <= top,
                    0 <= q <= top,
                    y - x == g - f,
                    y >= x,
            ;
        } else {
            assert(f == 0 && g == 0 && y == x) by (nonlinear_arith)
                requires
                    x == one * i + f,
                    y == one * i + g,
                    f >= 0,
                    g == 0,
                    x <= y,
            ;
            assert(top * (y - x) == 0) by (nonlinear_arith)
                requires
                    y == x,
            ;
        }
    } else {
        let r = a(i + 2);
        assert(j == i + 1);
        assert(0 <= q <= top);
        assert(y - x == one - f + g) by (nonlinear_arith)
            requires
                x == one * i + f,
                y == one * (i + 1) + g,
        ;
        if j < last {
            assert(0 <= r <= top);
            assert(close(
                q * (one - g) + r * g,
                p * (one - f) + q * f,
                top * (y - x),
            )) by (nonlinear_arith)
                requires
                    0 <= p <= top,
                    0 <= q <= top,
                    0 <= r <= top,
                    y - x == one - f + g,
                    0 <= g,
                    f < one,
            ;
        } else {
            assert(close(
                q * (one - g) + r * g,
                p * (one - f) + q * f,
                top * (y - x),
            )) by (nonlinear_arith)
                requires
                    0 <= p <= top,
                    0 <= q <= top,
                    g == 0,
                    y - x == one - f + g,
                    f < one,
            ;
        }
    }
}

/// What one axis adds to the error: five slips of mixing, one of the fraction
/// and 128 of the position.
pub open spec fn axis_error() -> int {
    134 * slip()
}

/// An error is scaled as its value is.
pub(crate) proof fn lemma_spread(x: int, v: int, e: int, m: int)
    requires
        close(x, v, e),
        m >= 0,
    ensures
        close(x * m, v * m, e * m),
{
    assert(close(x * m, v * m, e * m)) by (nonlinear_arith)
        requires
            close(x, v, e),
            m >= 0,
    ;
}

/// Mixing along an axis comes close to exact interpolation along it, where the
/// position is found to within `c` slips.
pub(crate) proof fn lemma_axis_at(
    a: spec_fn(int) -> int,
    k: int,
    last: nat,
    p: Single,
    v: Single,
    c: int,
    lo: Single,
    hi: Single,
    e: int,
    h: int,
) -> (r: lut::Between)
    requires
        k >= 1,
        within(a, last, unity() * k),
        plain(p),
        amount(p) <= unity(),
        last < 0x100_0000,
        v == p.times(Single::from_u64(last as u64)),
        plain(v),
        laws::is_finite(v),
        close(amount(v), amount(p) * last, c * slip()),
        0 <= amount(v) <= last * unity(),
        0 <= c <= 0x10_0000,
        plain(lo),
        plain(hi),
        amount(lo) <= unity() + h,
        amount(hi) <= unity() + h,
        0 <= h <= 30 * slip(),
        e >= 0,
        ({
            let r = lut::between(p.times(Single::from_u64(last as u64)), last);
            &&& close(amount(lo) * k, a(r.low as int), e * k)
            &&& close(amount(hi) * k, a(r.high as int), e * k)
        }),
    ensures
        r == lut::between(p.times(Single::from_u64(last as u64)), last),
        plain(lut::mixed(lo, hi, r.past)),
        amount(lut::mixed(lo, hi, r.past)) <= unity() + h + 5 * slip(),
        close(
            amount(lut::mixed(lo, hi, r.past)) * (unity() * k),
            exact(a, amount(p) * last),
            (e + (c + 6) * slip()) * (unity() * k),
        ),
{
    let one = unity();
    let s = slip();
    lut::identity::lemma_sizes();
    let r = lemma_split(v, last);
    let x = amount(v);
    let y = amount(p) * last;
    assert(0 <= y <= last * one) by (nonlinear_arith)
        requires
            0 <= amount(p) <= one,
            y == amount(p) * last,
    ;
    lemma_mix(lo, hi, r.past, h);
    let m = amount(lut::mixed(lo, hi, r.past));
    let (u, w, z, f) = (amount(lo), amount(hi), amount(r.past), x % one);
    let (b, d) = (a(r.low as int), a(r.high as int));
    let near = u * (one - z) + w * z;
    assert(0 <= b <= one * k && 0 <= d <= one * k);
    lemma_mod_bound(x, one);
    assert(close(m * (one * k), near * k, (5 * s) * (one * k))) by (nonlinear_arith)
        requires
            close(m * one, near, 5 * s * one),
            k >= 1,
    ;
    lemma_spread(u * k, b, e * k, one - z);
    lemma_spread(w * k, d, e * k, z);
    assert(near * k == (u * k) * (one - z) + (w * k) * z) by (nonlinear_arith)
        requires
            near == u * (one - z) + w * z,
    ;
    assert((e * k) * (one - z) + (e * k) * z == e * (one * k)) by (nonlinear_arith);
    let wide = if b <= d {
        d - b
    } else {
        b - d
    };
    lemma_spread(z, f, s, wide);
    assert(b * (one - z) + d * z - (b * (one - f) + d * f) == (d - b) * z - (d - b) * f)
        by (nonlinear_arith);
    assert((b - d) * z - (b - d) * f == -((d - b) * z - (d - b) * f)) by (nonlinear_arith);
    assert(z * wide == wide * z && f * wide == wide * f) by (nonlinear_arith);
    assert(s * wide <= s * (one * k)) by (nonlinear_arith)
        requires
            wide <= one * k,
            s > 0,
    ;
    assert(exact(a, x) == b * (one - f) + d * f) by {
        if r.low == last {
            lemma_mod_multiples_basic(last as int, one);
            assert(f == 0);
            assert(b * (one - f) + d * f == b * (one - f) + a(x / one + 1) * f) by (nonlinear_arith)
                requires
                    f == 0,
            ;
        }
    }
    assert(c * s <= one) by (nonlinear_arith)
        requires
            c <= 0x10_0000,
            one == 0x100_0000 * s,
            s > 0,
    ;
    if x <= y {
        lemma_exact_slope(a, last, one * k, x, y);
    } else {
        lemma_exact_slope(a, last, one * k, y, x);
    }
    let gap = if x <= y {
        y - x
    } else {
        x - y
    };
    assert((one * k) * gap <= (c * s) * (one * k)) by (nonlinear_arith)
        requires
            0 <= gap <= c * s,
            one > 0,
            k >= 1,
    ;
    let q = one * k;
    assert((e + (c + 6) * s) * q == e * q + (5 * s) * q + s * q + (c * s) * q) by (nonlinear_arith);
    r
}

/// Mixing along an axis comes close to exact interpolation along it.
proof fn lemma_axis(
    a: spec_fn(int) -> int,
    k: int,
    last: nat,
    p: Single,
    lo: Single,
    hi: Single,
    e: int,
    h: int,
) -> (r: lut::Between)
    requires
        k >= 1,
        within(a, last, unity() * k),
        plain(p),
        amount(p) <= unity(),
        last <= 256,
        plain(lo),
        plain(hi),
        amount(lo) <= unity() + h,
        amount(hi) <= unity() + h,
        0 <= h <= 30 * slip(),
        e >= 0,
        ({
            let r = lut::between(p.times(Single::from_u64(last as u64)), last);
            &&& close(amount(lo) * k, a(r.low as int), e * k)
            &&& close(amount(hi) * k, a(r.high as int), e * k)
        }),
    ensures
        r == lut::between(p.times(Single::from_u64(last as u64)), last),
        plain(lut::mixed(lo, hi, r.past)),
        amount(lut::mixed(lo, hi, r.past)) <= unity() + h + 5 * slip(),
        close(
            amount(lut::mixed(lo, hi, r.past)) * (unity() * k),
            exact(a, amount(p) * last),
            (e + axis_error()) * (unity() * k),
        ),
{
    let v = lemma_scaled(p, last);
    lut::identity::lemma_sizes();
    lemma_axis_at(a, k, last, p, v, 128, lo, hi, e, h)
}

/// The values along the first axis.
pub open spec fn row(d: spec_fn(int, int, int) -> int, j: int, k: int) -> spec_fn(int) -> int {
    |i: int| d(i, j, k)
}

/// The values along the second axis, at a place of the first.
pub open spec fn line(d: spec_fn(int, int, int) -> int, x: int, k: int) -> spec_fn(int) -> int {
    |j: int| exact(row(d, j, k), x)
}

/// The values along the third axis, at a place of the other two.
pub open spec fn plane(d: spec_fn(int, int, int) -> int, x: int, y: int) -> spec_fn(int) -> int {
    |k: int| exact(line(d, x, k), y)
}

/// Exact trilinear interpolation.
pub open spec fn trilinear(d: spec_fn(int, int, int) -> int, x: int, y: int, z: int) -> int {
    exact(plane(d, x, y), z)
}

/// Values from 0 to `top`, at the places `0..=last` on three axes.
pub open spec fn all_within(d: spec_fn(int, int, int) -> int, last: nat, top: int) -> bool {
    forall|i: int, j: int, k: int|
        0 <= i <= last && 0 <= j <= last && 0 <= k <= last ==> 0 <= #[trigger] d(i, j, k) <= top
}

pub(crate) proof fn lemma_lines_within(d: spec_fn(int, int, int) -> int, last: nat, k: int, x: int, y: int)
    requires
        all_within(d, last, unity() * k),
        k >= 1,
        0 <= x <= last * unity(),
        0 <= y <= last * unity(),
    ensures
        forall|j: int, n: int|
            0 <= j <= last && 0 <= n <= last ==> within(#[trigger] row(d, j, n), last, unity() * k),
        forall|n: int|
            0 <= n <= last ==> within(#[trigger] line(d, x, n), last, unity() * (unity() * k)),
        within(plane(d, x, y), last, unity() * (unity() * (unity() * k))),
{
    let one = unity();
    lut::identity::lemma_sizes();
    let (k0, k1, k2) = (one * k, one * (one * k), one * (one * (one * k)));
    assert(k0 >= 0 && k1 >= 0) by (nonlinear_arith)
        requires
            one > 0,
            k >= 1,
            k0 == one * k,
            k1 == one * k0,
    ;
    assert(k0 * one == k1 && k1 * one == k2) by (nonlinear_arith)
        requires
            k0 == one * k,
            k1 == one * (one * k),
            k2 == one * (one * (one * k)),
    ;
    assert forall|j: int, n: int| 0 <= j <= last && 0 <= n <= last implies within(
        #[trigger] row(d, j, n),
        last,
        k0,
    ) by {
        assert forall|i: int| 0 <= i <= last implies 0 <= #[trigger] row(d, j, n)(i) <= k0 by {
            assert(0 <= d(i, j, n) <= k0);
        }
    }
    assert forall|n: int| 0 <= n <= last implies within(#[trigger] line(d, x, n), last, k1) by {
        assert forall|j: int| 0 <= j <= last implies 0 <= #[trigger] line(d, x, n)(j) <= k1 by {
            lemma_exact_within(row(d, j, n), last, k0, x);
        }
    }
    assert forall|n: int| 0 <= n <= last implies 0 <= #[trigger] plane(d, x, y)(n) <= k2 by {
        lemma_exact_within(line(d, x, n), last, k1, y);
    }
}

/// The entries of a cube stand for values, scaled by `k`, within `e`.
#[verifier::opaque]
pub open spec fn stands_for(
    t: lut::Table,
    ch: int,
    d: spec_fn(int, int, int) -> int,
    k: int,
    e: int,
    h: int,
) -> bool {
    forall|r: nat, g: nat, b: nat|
        r < t.size && g < t.size && b < t.size ==> {
            let c = #[trigger] t.entry(r, g, b)[ch];
            &&& plain(c)
            &&& amount(c) <= unity() + h
            &&& close(amount(c) * k, d(r as int, g as int, b as int), e * k)
        }
}

proof fn lemma_stands_for(
    t: lut::Table,
    ch: int,
    d: spec_fn(int, int, int) -> int,
    k: int,
    e: int,
    h: int,
    r: nat,
    g: nat,
    b: nat,
)
    requires
        stands_for(t, ch, d, k, e, h),
        r < t.size,
        g < t.size,
        b < t.size,
    ensures
        ({
            let c = t.entry(r, g, b)[ch];
            &&& plain(c)
            &&& amount(c) <= unity() + h
            &&& close(amount(c) * k, d(r as int, g as int, b as int), e * k)
        }),
{
    reveal(stands_for);
}

/// Mixing two entries along the first axis.
proof fn lemma_first(
    t: lut::Table,
    ch: int,
    d: spec_fn(int, int, int) -> int,
    k: int,
    e: int,
    h: int,
    p: Single,
    g: nat,
    b: nat,
) -> (r: lut::Between)
    requires
        stands_for(t, ch, d, k, e, h),
        1 <= t.size <= 257,
        all_within(d, (t.size - 1) as nat, unity() * k),
        k >= 1,
        e >= 0,
        0 <= h <= 15 * slip(),
        plain(p),
        amount(p) <= unity(),
        g < t.size,
        b < t.size,
    ensures
        r == lut::between(p.times(Single::from_u64((t.size - 1) as u64)), (t.size - 1) as nat),
        r.low < t.size,
        r.high < t.size,
        ({
            let m = lut::mixed(t.entry(r.low, g, b)[ch], t.entry(r.high, g, b)[ch], r.past);
            &&& plain(m)
            &&& amount(m) <= unity() + h + 5 * slip()
            &&& close(
                amount(m) * (unity() * k),
                line(d, amount(p) * (t.size - 1), b as int)(g as int),
                (e + axis_error()) * (unity() * k),
            )
        }),
{
    let last = (t.size - 1) as nat;
    lut::identity::lemma_sizes();
    let v = lemma_scaled(p, last);
    let r = lemma_split(v, last);
    lemma_stands_for(t, ch, d, k, e, h, r.low, g, b);
    lemma_stands_for(t, ch, d, k, e, h, r.high, g, b);
    let a = row(d, g as int, b as int);
    assert(within(a, last, unity() * k)) by {
        assert forall|i: int| 0 <= i <= last implies 0 <= #[trigger] a(i) <= unity() * k by {
            assert(0 <= d(i, g as int, b as int) <= unity() * k);
        }
    }
    let (lo, hi) = (t.entry(r.low, g, b)[ch], t.entry(r.high, g, b)[ch]);
    let q = lemma_axis(a, k, last, p, lo, hi, e, h);
    r
}

/// Sampling a cube comes close to exact trilinear interpolation.
pub(crate) proof fn lemma_cube(
    t: lut::Table,
    ch: int,
    d: spec_fn(int, int, int) -> int,
    k: int,
    e: int,
    h: int,
    p: [Single; 3],
)
    requires
        stands_for(t, ch, d, k, e, h),
        1 <= t.size <= 257,
        all_within(d, (t.size - 1) as nat, unity() * k),
        k >= 1,
        e >= 0,
        0 <= h <= 15 * slip(),
        plain(p[0]) && plain(p[1]) && plain(p[2]),
        amount(p[0]) <= unity() && amount(p[1]) <= unity() && amount(p[2]) <= unity(),
    ensures
        plain(t.cube_at(p, ch)),
        amount(t.cube_at(p, ch)) <= unity() + h + 15 * slip(),
        close(
            amount(t.cube_at(p, ch)) * (unity() * (unity() * (unity() * k))),
            trilinear(
                d,
                amount(p[0]) * (t.size - 1),
                amount(p[1]) * (t.size - 1),
                amount(p[2]) * (t.size - 1),
            ),
            (e + 3 * axis_error()) * (unity() * (unity() * (unity() * k))),
        ),
{
    let one = unity();
    let s = slip();
    let last = (t.size - 1) as nat;
    lut::identity::lemma_sizes();
    let edge = Single::from_u64(last as u64);
    let (v, w) = (lemma_scaled(p[1], last), lemma_scaled(p[2], last));
    let (y, z) = (lemma_split(v, last), lemma_split(w, last));
    let x = lemma_first(t, ch, d, k, e, h, p[0], y.low, z.low);
    let x1 = lemma_first(t, ch, d, k, e, h, p[0], y.high, z.low);
    let x2 = lemma_first(t, ch, d, k, e, h, p[0], y.low, z.high);
    let x3 = lemma_first(t, ch, d, k, e, h, p[0], y.high, z.high);
    let (a0, a1, a2) = (amount(p[0]) * last, amount(p[1]) * last, amount(p[2]) * last);
    assert(0 <= a0 <= last * one && 0 <= a1 <= last * one) by (nonlinear_arith)
        requires
            0 <= amount(p[0]) <= one,
            0 <= amount(p[1]) <= one,
            a0 == amount(p[0]) * last,
            a1 == amount(p[1]) * last,
    ;
    lemma_lines_within(d, last, k, a0, a1);
    let c00 = lut::mixed(t.entry(x.low, y.low, z.low)[ch], t.entry(x.high, y.low, z.low)[ch], x.past);
    let c10 = lut::mixed(t.entry(x.low, y.high, z.low)[ch], t.entry(x.high, y.high, z.low)[ch], x.past);
    let c01 = lut::mixed(t.entry(x.low, y.low, z.high)[ch], t.entry(x.high, y.low, z.high)[ch], x.past);
    let c11 = lut::mixed(t.entry(x.low, y.high, z.high)[ch], t.entry(x.high, y.high, z.high)[ch], x.past);
    let k1 = one * k;
    let k2 = one * k1;
    assert(k1 >= 1 && k2 >= 1) by (nonlinear_arith)
        requires
            one >= 1,
            k >= 1,
            k1 == one * k,
            k2 == one * k1,
    ;
    let e1 = e + axis_error();
    let e2 = e1 + axis_error();
    let f0 = line(d, a0, z.low as int);
    let f1 = line(d, a0, z.high as int);
    let y0 = lemma_axis(f0, k1, last, p[1], c00, c10, e1, h + 5 * s);
    let y1 = lemma_axis(f1, k1, last, p[1], c01, c11, e1, h + 5 * s);
    let (b0, b1) = (lut::mixed(c00, c10, y.past), lut::mixed(c01, c11, y.past));
    let f = plane(d, a0, a1);
    let z0 = lemma_axis(f, k2, last, p[2], b0, b1, e2, h + 10 * s);
    assert(t.cube_at(p, ch) == lut::mixed(b0, b1, z.past));
}

/// Tables that are close to each other are interpolated close to each other.
proof fn lemma_exact_close(
    a: spec_fn(int) -> int,
    b: spec_fn(int) -> int,
    last: nat,
    y: int,
    e: int,
)
    requires
        forall|i: int| 0 <= i <= last ==> close(#[trigger] a(i), b(i), e),
        0 <= y <= last * unity(),
    ensures
        close(exact(a, y), exact(b, y), e * unity()),
{
    let one = unity();
    lut::identity::lemma_sizes();
    lemma_fundamental_div_mod(y, one);
    lemma_mod_bound(y, one);
    let (i, f) = (y / one, y % one);
    assert(0 <= i <= last && (i == last ==> f == 0)) by (nonlinear_arith)
        requires
            y == one * i + f,
            0 <= f < one,
            0 <= y <= last * one,
            one > 0,
    ;
    assert(close(a(i), b(i), e));
    lemma_spread(a(i), b(i), e, one - f);
    if i < last {
        assert(close(a(i + 1), b(i + 1), e));
        lemma_spread(a(i + 1), b(i + 1), e, f);
    } else {
        assert(a(i + 1) * f == 0 && b(i + 1) * f == 0 && e * f == 0) by (nonlinear_arith)
            requires
                f == 0,
        ;
    }
    assert(e * (one - f) + e * f == e * one) by (nonlinear_arith);
}

/// Interpolation moves no faster than from one value to the next, either way.
pub(crate) proof fn lemma_exact_near(a: spec_fn(int) -> int, last: nat, top: int, x: int, y: int, e: int)
    requires
        within(a, last, top),
        0 <= x <= last * unity(),
        0 <= y <= last * unity(),
        close(x, y, e),
        0 <= e <= unity(),
        top >= 0,
    ensures
        close(exact(a, x), exact(a, y), top * e),
{
    let d = if x <= y {
        y - x
    } else {
        x - y
    };
    if x <= y {
        lemma_exact_slope(a, last, top, x, y);
    } else {
        lemma_exact_slope(a, last, top, y, x);
    }
    assert(top * d <= top * e) by (nonlinear_arith)
        requires
            d <= e,
            top >= 0,
    ;
}

/// Trilinear interpolation at places close to each other.
pub(crate) proof fn lemma_trilinear_near(
    d: spec_fn(int, int, int) -> int,
    last: nat,
    k: int,
    p: (int, int, int),
    q: (int, int, int),
    e: int,
)
    requires
        all_within(d, last, unity() * k),
        k >= 1,
        0 <= p.0 <= last * unity() && 0 <= p.1 <= last * unity() && 0 <= p.2 <= last * unity(),
        0 <= q.0 <= last * unity() && 0 <= q.1 <= last * unity() && 0 <= q.2 <= last * unity(),
        close(p.0, q.0, e) && close(p.1, q.1, e) && close(p.2, q.2, e),
        0 <= e <= unity(),
    ensures
        close(
            trilinear(d, p.0, p.1, p.2),
            trilinear(d, q.0, q.1, q.2),
            3 * (e * (unity() * (unity() * (unity() * k)))),
        ),
{
    let one = unity();
    lut::identity::lemma_sizes();
    let (t0, t1, t2) = (one * k, one * (one * k), one * (one * (one * k)));
    assert(t0 >= 0 && t1 >= 0 && t2 >= 0) by (nonlinear_arith)
        requires
            one > 0,
            k >= 1,
            t0 == one * k,
            t1 == one * t0,
            t2 == one * t1,
    ;
    lemma_lines_within(d, last, k, p.0, p.1);
    lemma_lines_within(d, last, k, q.0, q.1);
    lemma_lines_within(d, last, k, p.0, q.1);
    assert forall|n: int| 0 <= n <= last implies close(
        #[trigger] plane(d, p.0, p.1)(n),
        plane(d, p.0, q.1)(n),
        t1 * e,
    ) by {
        lemma_exact_near(line(d, p.0, n), last, t1, p.1, q.1, e);
    }
    assert forall|n: int| 0 <= n <= last implies close(
        #[trigger] plane(d, p.0, q.1)(n),
        plane(d, q.0, q.1)(n),
        (t0 * e) * one,
    ) by {
        assert forall|j: int| 0 <= j <= last implies close(
            #[trigger] line(d, p.0, n)(j),
            line(d, q.0, n)(j),
            t0 * e,
        ) by {
            lemma_exact_near(row(d, j, n), last, t0, p.0, q.0, e);
        }
        lemma_exact_close(line(d, p.0, n), line(d, q.0, n), last, q.1, t0 * e);
    }
    lemma_exact_near(plane(d, p.0, p.1), last, t2, p.2, q.2, e);
    lemma_exact_close(plane(d, p.0, p.1), plane(d, p.0, q.1), last, q.2, t1 * e);
    lemma_exact_close(plane(d, p.0, q.1), plane(d, q.0, q.1), last, q.2, (t0 * e) * one);
    assert(t2 * e == e * t2 && (t1 * e) * one == e * t2 && ((t0 * e) * one) * one == e * t2)
        by (nonlinear_arith)
        requires
            t0 == one * k,
            t1 == one * (one * k),
            t2 == one * (one * (one * k)),
    ;
}

/// At whole positions interpolation gives the value itself.
proof fn lemma_exact_on(a: spec_fn(int) -> int, i: int)
    ensures
        exact(a, i * unity()) == a(i) * unity(),
{
    lut::identity::lemma_sizes();
    lemma_fundamental_div_mod_converse(i * unity(), unity(), i, 0);
    assert(a(i + 1) * 0 == 0);
}

proof fn lemma_trilinear_on(d: spec_fn(int, int, int) -> int, r: int, g: int, b: int)
    ensures
        trilinear(d, r * unity(), g * unity(), b * unity()) == d(r, g, b) * (unity() * (unity()
            * unity())),
{
    let one = unity();
    lemma_exact_on(row(d, g, b), r);
    lemma_exact_on(line(d, r * one, b), g);
    lemma_exact_on(plane(d, r * one, g * one), b);
    let v = d(r, g, b);
    assert(((v * one) * one) * one == v * (one * (one * one))) by (nonlinear_arith);
}

/// A channel of a color of the domain, or beyond, has a position from 0 to 1.
pub(crate) proof fn lemma_position(v: Single, min: Single, max: Single)
    requires
        lut::domain::is_spread(min, max),
        !v.nan(),
    ensures
        plain(lut::placed(v, min, max)),
        amount(lut::placed(v, min, max)) <= unity(),
{
    let f = Format::Single;
    let span = max.minus(min);
    laws::law_minus_keeps_order(min, max, min);
    laws::law_minus_itself(min);
    assert(Single::zero().less(span));
    let d = v.minus(min);
    assert(!d.nan()) by {
        let t = number::signed_units(f, v.number()) - number::signed_units(f, min.number());
        laws::law_nearest_exists(f, (if t < 0 { -t } else { t }) as nat, 1);
    }
    let q = d.over(span);
    assert(!q.nan()) by {
        let u = grid::units(f, span.number().index as nat);
        grid::lemma_units_increase(f, 0, span.number().index as nat);
        laws::law_nearest_exists(f, grid::units(f, d.number().index as nat) * pow2(149), u);
    }
    let p = q.clamped(Single::zero(), Single::one());
    assert(p.number().index <= 0x3f80_0000);
    lut::identity::lemma_sizes();
    grid::lemma_units_increase(f, p.number().index as nat, 0x3f80_0000);
}

/// The positions of a color in a domain that can be told apart.
pub(crate) proof fn lemma_positions(t: lut::Table, rgb: [Single; 3])
    requires
        lut::domain::has_spread(t),
        !rgb[0].nan(),
        !rgb[1].nan(),
        !rgb[2].nan(),
    ensures
        ({
            let p = t.normalized(rgb);
            &&& plain(p[0]) && plain(p[1]) && plain(p[2])
            &&& amount(p[0]) <= unity() && amount(p[1]) <= unity() && amount(p[2]) <= unity()
        }),
{
    lemma_position(rgb[0], t.domain_min[0], t.domain_max[0]);
    lemma_position(rgb[1], t.domain_min[1], t.domain_max[1]);
    lemma_position(rgb[2], t.domain_min[2], t.domain_max[2]);
}

/// The entries of a table, on one channel, lie between two values from 0 to 1.
pub open spec fn ranges(t: lut::Table, ch: int, low: Single, high: Single) -> bool {
    &&& Single::zero().at_most(low)
    &&& high.at_most(Single::one())
    &&& forall|i: int|
        0 <= i < t.data.len() ==> low.at_most(#[trigger] t.data[i][ch]) && t.data[i][ch].at_most(high)
}

/// A value between two others, as an amount.
pub(crate) proof fn lemma_amount(c: Single, low: Single, high: Single)
    requires
        Single::zero().at_most(low),
        high.at_most(Single::one()),
        low.at_most(c),
        c.at_most(high),
    ensures
        plain(c),
        plain(low),
        plain(high),
        0 <= amount(low) <= amount(c) <= amount(high) <= unity(),
{
    let f = Format::Single;
    lut::identity::lemma_sizes();
    grid::lemma_units_increase(f, low.number().index as nat, c.number().index as nat);
    grid::lemma_units_increase(f, c.number().index as nat, high.number().index as nat);
    grid::lemma_units_increase(f, high.number().index as nat, 0x3f80_0000);
}

/// The entry of a cube, as an amount.
pub(crate) proof fn lemma_entry_amount(t: lut::Table, ch: int, low: Single, high: Single, r: nat, g: nat, b: nat)
    requires
        t.complete(),
        t.cube,
        ranges(t, ch, low, high),
        r < t.size,
        g < t.size,
        b < t.size,
    ensures
        plain(t.entry(r, g, b)[ch]),
        amount(low) <= amount(t.entry(r, g, b)[ch]) <= amount(high),
        amount(high) <= unity(),
{
    lut::lemma_entry_in_range(t.size, r, g, b);
    let i = (r + g * t.size + b * (t.size * t.size)) as int;
    assert(low.at_most(t.data[i][ch]));
    lemma_amount(t.data[i][ch], low, high);
}

proof fn lemma_cube_stays(t: lut::Table, p: [Single; 3], ch: int, low: Single, high: Single)
    requires
        t.complete(),
        t.cube,
        t.size <= 257,
        ranges(t, ch, low, high),
        plain(p[0]) && plain(p[1]) && plain(p[2]),
        amount(p[0]) <= unity() && amount(p[1]) <= unity() && amount(p[2]) <= unity(),
    ensures
        plain(t.cube_at(p, ch)),
        amount(low) - 15 * slip() <= amount(t.cube_at(p, ch)) <= amount(high) + 15 * slip(),
{
    let last = (t.size - 1) as nat;
    let s = slip();
    lut::identity::lemma_sizes();
    let (u, v, w) = (lemma_scaled(p[0], last), lemma_scaled(p[1], last), lemma_scaled(p[2], last));
    let (x, y, z) = (lemma_split(u, last), lemma_split(v, last), lemma_split(w, last));
    let (l, h) = (amount(low), amount(high));
    lemma_entry_amount(t, ch, low, high, x.low, y.low, z.low);
    lemma_entry_amount(t, ch, low, high, x.high, y.low, z.low);
    lemma_entry_amount(t, ch, low, high, x.low, y.high, z.low);
    lemma_entry_amount(t, ch, low, high, x.high, y.high, z.low);
    lemma_entry_amount(t, ch, low, high, x.low, y.low, z.high);
    lemma_entry_amount(t, ch, low, high, x.high, y.low, z.high);
    lemma_entry_amount(t, ch, low, high, x.low, y.high, z.high);
    lemma_entry_amount(t, ch, low, high, x.high, y.high, z.high);
    let e000 = t.entry(x.low, y.low, z.low)[ch];
    let e100 = t.entry(x.high, y.low, z.low)[ch];
    let e010 = t.entry(x.low, y.high, z.low)[ch];
    let e110 = t.entry(x.high, y.high, z.low)[ch];
    let e001 = t.entry(x.low, y.low, z.high)[ch];
    let e101 = t.entry(x.high, y.low, z.high)[ch];
    let e011 = t.entry(x.low, y.high, z.high)[ch];
    let e111 = t.entry(x.high, y.high, z.high)[ch];
    lemma_mix_between(e000, e100, x.past, 0, l, h);
    lemma_mix_between(e010, e110, x.past, 0, l, h);
    lemma_mix_between(e001, e101, x.past, 0, l, h);
    lemma_mix_between(e011, e111, x.past, 0, l, h);
    let (c00, c10) = (lut::mixed(e000, e100, x.past), lut::mixed(e010, e110, x.past));
    let (c01, c11) = (lut::mixed(e001, e101, x.past), lut::mixed(e011, e111, x.past));
    lemma_mix_between(c00, c10, y.past, 5 * s, l - 5 * s, h + 5 * s);
    lemma_mix_between(c01, c11, y.past, 5 * s, l - 5 * s, h + 5 * s);
    let (b0, b1) = (lut::mixed(c00, c10, y.past), lut::mixed(c01, c11, y.past));
    lemma_mix_between(b0, b1, z.past, 10 * s, l - 10 * s, h + 10 * s);
    assert(t.cube_at(p, ch) == lut::mixed(b0, b1, z.past));
}

/// A sample stays between the least and the greatest entry of its channel, up to
/// a millionth: nothing is extrapolated. The entries run from 0 to 1.
pub proof fn law_samples_stay_among_the_entries(
    t: lut::Table,
    rgb: [Single; 3],
    ch: int,
    low: Single,
    high: Single,
)
    requires
        t.complete(),
        t.size <= 256,
        lut::domain::has_spread(t),
        0 <= ch < 3,
        ranges(t, ch, low, high),
        !rgb[0].nan(),
        !rgb[1].nan(),
        !rgb[2].nan(),
    ensures
        plain(t.sampled(rgb)[ch]),
        (amount(low) - amount(t.sampled(rgb)[ch])) * 1_000_000 < unity(),
        (amount(t.sampled(rgb)[ch]) - amount(high)) * 1_000_000 < unity(),
{
    let p = t.normalized(rgb);
    lut::identity::lemma_sizes();
    lemma_positions(t, rgb);
    if t.cube {
        lemma_cube_stays(t, p, ch, low, high);
    } else {
        let last = (t.size - 1) as nat;
        lut::domain::lemma_last_entry(t.size);
        let v = lemma_scaled(p[ch], last);
        let x = lemma_split(v, last);
        let (a, b) = (t.data[x.low as int][ch], t.data[x.high as int][ch]);
        assert(low.at_most(a) && low.at_most(b));
        lemma_amount(a, low, high);
        lemma_amount(b, low, high);
        lemma_mix_between(a, b, x.past, 0, amount(low), amount(high));
    }
}

/// The `i`-th of the levels of a cube is its position, up to rounding.
proof fn lemma_level_place(i: nat, last: nat)
    requires
        1 <= last <= 255,
        i <= last,
    ensures
        ({
            let l = gpu::level(i, last + 1);
            &&& plain(l)
            &&& amount(l) <= unity()
            &&& l.at_most(Single::one())
            &&& !l.number().negative
            &&& close(amount(l) * last, i * unity(), 256 * slip())
        }),
{
    let f = Format::Single;
    let one = unity();
    let s = slip();
    lut::identity::lemma_sizes();
    laws::law_small_integers_are_exact(i as u64);
    laws::law_small_integers_are_exact(last as u64);
    let l = gpu::level(i, last + 1);
    let n = ((i * one) * one) as nat;
    let d = (last * one) as nat;
    assert(d > 0 && n <= one * d && n <= 2 * one * d && 0 <= (i * one) * one) by (nonlinear_arith)
        requires
            n == (i * one) * one,
            d == last * one,
            0 <= i <= last,
            last >= 1,
            one > 0,
    ;
    assert(pow2(149) == one);
    lut::identity::lemma_round_error(n, d);
    laws::law_nearest_exists(f, n, d);
    let k = grid::round_magnitude(f, n, d);
    let e = Single::from_u64(last as u64);
    if e.number().index == 0 {
        assert(false) by (nonlinear_arith)
            requires
                grid::units(f, 0) == 0,
                grid::units(f, 0) == last * one,
                last >= 1,
                one > 0,
        ;
    }
    assert(l.number() == (number::Number { negative: false, index: k as u64 }));
    laws::law_rounding_keeps_values(f, 0x3f80_0000, d);
    assert(n * d <= (one * d) * d) by (nonlinear_arith)
        requires
            n <= one * d,
            d > 0,
    ;
    laws::law_rounding_keeps_order(f, n, d, (one * d) as nat, d);
    grid::lemma_units_increase(f, k, 0x3f80_0000);
    let a = amount(l);
    assert(close(a * last, i * one, last * s)) by (nonlinear_arith)
        requires
            close(a * d, n as int, s * d),
            n == (i * one) * one,
            d == last * one,
            one > 0,
    ;
    assert(last * s <= 256 * s) by (nonlinear_arith)
        requires
            last <= 255,
            s > 0,
    ;
}

/// A cube whose entries on one channel run from 0 to 1 stands for their amounts.
pub(crate) proof fn lemma_amounts(t: lut::Table, ch: int) -> (d: spec_fn(int, int, int) -> int)
    requires
        t.complete(),
        t.cube,
        ranges(t, ch, Single::zero(), Single::one()),
    ensures
        d == |r: int, g: int, b: int| amount(t.entry(r as nat, g as nat, b as nat)[ch]),
        stands_for(t, ch, d, 1, 0, 0),
        all_within(d, (t.size - 1) as nat, unity() * 1),
{
    let d = |r: int, g: int, b: int| amount(t.entry(r as nat, g as nat, b as nat)[ch]);
    lut::identity::lemma_sizes();
    assert(stands_for(t, ch, d, 1, 0, 0)) by {
        reveal(stands_for);
        assert forall|r: nat, g: nat, b: nat| r < t.size && g < t.size && b < t.size implies ({
            let c = #[trigger] t.entry(r, g, b)[ch];
            &&& plain(c)
            &&& amount(c) <= unity() + 0
            &&& close(amount(c) * 1, d(r as int, g as int, b as int), 0int * 1)
        }) by {
            lemma_entry_amount(t, ch, Single::zero(), Single::one(), r, g, b);
        }
    }
    assert forall|i: int, j: int, k: int|
        0 <= i <= t.size - 1 && 0 <= j <= t.size - 1 && 0 <= k <= t.size - 1 implies 0
        <= #[trigger] d(i, j, k) <= unity() * 1 by {
        lemma_entry_amount(t, ch, Single::zero(), Single::one(), i as nat, j as nat, k as nat);
    }
    d
}

/// A cube on the domain from 0 to 1 meets each entry at its own position, to
/// within a ten-thousandth; red varies fastest. The entries run from 0 to 1.
pub proof fn law_cube_meets_its_entries(t: lut::Table, r: nat, g: nat, b: nat, ch: int)
    requires
        t.complete(),
        t.cube,
        2 <= t.size <= 256,
        t.domain_min == [Single::zero(), Single::zero(), Single::zero()],
        t.domain_max == [Single::one(), Single::one(), Single::one()],
        r < t.size,
        g < t.size,
        b < t.size,
        0 <= ch < 3,
        ranges(t, ch, Single::zero(), Single::one()),
    ensures
        ({
            let got = t.sampled(gpu::levels(t.size)(r, g, b))[ch];
            let entry = t.data[(r + g * t.size + b * (t.size * t.size)) as int][ch];
            &&& plain(got)
            &&& -unity() < (amount(got) - amount(entry)) * 10_000 < unity()
        }),
{
    let one = unity();
    let s = slip();
    let last = (t.size - 1) as nat;
    lut::identity::lemma_sizes();
    lemma_level_place(r, last);
    lemma_level_place(g, last);
    lemma_level_place(b, last);
    let rgb = gpu::levels(t.size)(r, g, b);
    lut::identity::lemma_placed(rgb[0]);
    lut::identity::lemma_placed(rgb[1]);
    lut::identity::lemma_placed(rgb[2]);
    let p = t.normalized(rgb);
    let d = lemma_amounts(t, ch);
    lemma_cube(t, ch, d, 1, 0, 0, p);
    let x = (amount(p[0]) * last, amount(p[1]) * last, amount(p[2]) * last);
    let y = (r * one, g * one, b * one);
    lemma_edges(amount(p[0]), r, last);
    lemma_edges(amount(p[1]), g, last);
    lemma_edges(amount(p[2]), b, last);
    lemma_trilinear_near(d, last, 1, x, y, 256 * s);
    lemma_trilinear_on(d, r as int, g as int, b as int);
    let (m, v) = (amount(t.cube_at(p, ch)), d(r as int, g as int, b as int));
    let q = one * (one * (one * 1));
    assert(one * (one * one) == q);
    assert(q > 0) by (nonlinear_arith)
        requires
            q == one * (one * (one * 1)),
            one > 0,
    ;
    let tri = trilinear(d, x.0, x.1, x.2);
    assert(close(m, v, 1170 * s)) by (nonlinear_arith)
        requires
            close(m * q, tri, (0 + 3 * (134 * s)) * q),
            close(tri, v * q, 3 * ((256 * s) * q)),
            q > 0,
    ;
}

/// Positions lie between the ends.
proof fn lemma_edges(a: int, i: nat, last: nat)
    requires
        0 <= a <= unity(),
        i <= last,
    ensures
        0 <= a * last <= last * unity(),
        0 <= i * unity() <= last * unity(),
{
    lut::identity::lemma_sizes();
    assert(0 <= a * last <= last * unity() && 0 <= i * unity() <= last * unity()) by (nonlinear_arith)
        requires
            0 <= a <= unity(),
            0 <= i <= last,
    ;
}

} // verus!
