//! How far rounding carries the arithmetic on colors.
//!
//! Values are bounded in quarters, and their errors in grains: a grain is the
//! 2^24th part of a quarter, so that rounding a value of so many quarters is off
//! by no more than as many grains.

use crate::color::lut::identity;
use crate::color::lut::identity::close;
use crate::color::scale;
use crate::ieee::grid;
use crate::ieee::grid::Format;
use crate::ieee::laws;
use crate::ieee::number;
use crate::ieee::number::Number;
use crate::ieee::single::Single;
use vstd::arithmetic::power2::*;
use vstd::prelude::*;

verus! {

/// A value with its sign, in units of the smallest subnormal.
#[verifier::opaque]
pub open spec fn units_of(x: Single) -> int {
    number::signed_units(Format::Single, x.number())
}

/// 1.0, in units.
pub open spec fn whole() -> int {
    pow2(149) as int
}

/// 0.25, in units.
pub open spec fn quarter() -> int {
    pow2(147) as int
}

/// 2^-26, in units.
pub open spec fn grain() -> int {
    pow2(123) as int
}

/// A finite value from `lo` to `hi` quarters.
pub open spec fn within(x: Single, lo: int, hi: int) -> bool {
    &&& laws::is_finite(x)
    &&& lo * quarter() <= units_of(x) <= hi * quarter()
}

/// Two finite values from `lo` to `hi` quarters, no more than `k` grains apart.
pub open spec fn pair(x: Single, y: Single, lo: int, hi: int, k: int) -> bool {
    &&& within(x, lo, hi)
    &&& within(y, lo, hi)
    &&& close(units_of(x), units_of(y), k * grain())
}

pub(crate) proof fn lemma_measures()
    ensures
        grain() > 0,
        quarter() == 0x100_0000 * grain(),
        whole() == 4 * quarter(),
{
    lemma2_to64();
    lemma_pow2_pos(123);
    lemma_pow2_adds(24, 123);
    lemma_pow2_adds(2, 147);
}

/// The quarters are values of the format.
proof fn lemma_quarters(v: nat) -> (k: nat)
    requires
        v < 0x10_0000,
    ensures
        grid::units(Format::Single, k) == v * quarter(),
        k < Format::Single.infinity(),
{
    laws::lemma_magnitude(v, 147)
}

/// Rounding does not go past a quarter, neither up nor down.
proof fn lemma_stays(n: nat, d: nat, low: nat, high: nat)
    requires
        d > 0,
        low <= high < 0x10_0000,
        (low * quarter()) * d <= n <= (high * quarter()) * d,
    ensures
        ({
            let k = grid::round_magnitude(Format::Single, n, d);
            &&& k < Format::Single.infinity()
            &&& low * quarter() <= grid::units(Format::Single, k) <= high * quarter()
        }),
{
    let f = Format::Single;
    let a = lemma_quarters(low);
    let b = lemma_quarters(high);
    let (u, v) = (grid::units(f, a), grid::units(f, b));
    laws::law_rounding_keeps_values(f, a, d);
    laws::law_rounding_keeps_values(f, b, d);
    assert((u * d) * d <= n * d && n * d <= (v * d) * d) by (nonlinear_arith)
        requires
            u * d <= n <= v * d,
            d > 0,
    ;
    laws::law_rounding_keeps_order(f, u * d, d, n, d);
    laws::law_rounding_keeps_order(f, n, d, v * d, d);
    let k = grid::round_magnitude(f, n, d);
    if a < k {
        grid::lemma_units_increase(f, a, k);
    }
    if k < b {
        grid::lemma_units_increase(f, k, b);
    }
}

/// Rounding `t / d` units.
proof fn lemma_rounded(t: int, d: nat, r: Number, lo: int, hi: int, m: int)
    requires
        d > 0,
        (lo * quarter()) * d <= t <= (hi * quarter()) * d,
        -m <= lo <= hi <= m < 0x10_0000,
        t < 0 ==> r.negative && r.index == grid::round_magnitude(Format::Single, (-t) as nat, d),
        t > 0 ==> !r.negative && r.index == grid::round_magnitude(Format::Single, t as nat, d),
        t == 0 ==> r.index == 0,
    ensures
        r.index < Format::Single.infinity(),
        lo * quarter() <= number::signed_units(Format::Single, r) <= hi * quarter(),
        close(
            2 * (number::signed_units(Format::Single, r) * d),
            2 * t,
            2 * ((m * grain()) * d) + d,
        ),
{
    let f = Format::Single;
    let q = quarter();
    let g = grain();
    lemma_measures();
    assert(grid::units(f, 0) == 0);
    let n = (if t < 0 {
        -t
    } else {
        t
    }) as nat;
    if t == 0 {
        assert(lo <= 0 <= hi) by (nonlinear_arith)
            requires
                (lo * q) * d <= 0 <= (hi * q) * d,
                q > 0,
                d > 0,
        ;
        assert(lo * q <= 0 <= hi * q) by (nonlinear_arith)
            requires
                lo <= 0 <= hi,
                q > 0,
        ;
        assert(0 * d == 0);
        assert((m * g) * d >= 0) by (nonlinear_arith)
            requires
                m >= 0,
                g > 0,
                d > 0,
        ;
    } else {
        let low = (if t < 0 {
            if hi < 0 { -hi } else { 0 }
        } else {
            if lo > 0 { lo } else { 0 }
        }) as nat;
        let high = (if t < 0 {
            -lo
        } else {
            hi
        }) as nat;
        assert(t < 0 ==> lo < 0) by (nonlinear_arith)
            requires
                (lo * q) * d <= t,
                q > 0,
                d > 0,
        ;
        assert(t > 0 ==> hi > 0) by (nonlinear_arith)
            requires
                t <= (hi * q) * d,
                q > 0,
                d > 0,
        ;
        assert((-lo * q) * d == -((lo * q) * d)) by (nonlinear_arith);
        assert((-hi * q) * d == -((hi * q) * d)) by (nonlinear_arith);
        assert(0 * q == 0 && 0 * d == 0);
        assert(low * q * d <= n <= (high * q) * d);
        assert(low <= high);
        lemma_stays(n, d, low, high);
        let k = grid::round_magnitude(f, n, d);
        let u = grid::units(f, k);
        scale::lemma_relative(n, d, k);
        assert(high * q <= m * q) by (nonlinear_arith)
            requires
                high <= m,
                q > 0,
        ;
        assert(m * q == 0x100_0000 * (m * g)) by (nonlinear_arith)
            requires
                q == 0x100_0000 * g,
        ;
        assert((u + 0x80_0000) * d <= 0x100_0000 * ((m * g) * d) + 0x80_0000 * d) by (nonlinear_arith)
            requires
                u <= 0x100_0000 * (m * g),
                d > 0,
        ;
        let s = number::signed_units(f, r);
        assert(s * d == if t < 0 { -(u * d) } else { (u * d) as int }) by (nonlinear_arith)
            requires
                s == if t < 0 { -(u as int) } else { u as int },
        ;
        assert(-lo * q == -(lo * q)) by (nonlinear_arith);
        assert(-hi * q == -(hi * q)) by (nonlinear_arith);
        if low == 0 {
            assert(t < 0 ==> hi >= 0 && hi * q >= 0) by (nonlinear_arith)
                requires
                    t < 0 ==> hi >= 0,
                    q > 0,
            ;
            assert(t > 0 ==> lo <= 0 && lo * q <= 0) by (nonlinear_arith)
                requires
                    t > 0 ==> lo <= 0,
                    q > 0,
            ;
        }
    }
}

/// A sum of no more than `m` quarters is off by no more than `m` grains.
pub(crate) proof fn lemma_plus(x: Single, y: Single, lo: int, hi: int, m: int)
    requires
        laws::is_finite(x),
        laws::is_finite(y),
        lo * quarter() <= units_of(x) + units_of(y) <= hi * quarter(),
        -m <= lo <= hi <= m < 0x10_0000,
    ensures
        within(x.plus(y), lo, hi),
        close(units_of(x.plus(y)), units_of(x) + units_of(y), m * grain()),
{
    reveal(units_of);
    lemma_total(x.number(), y.number(), lo, hi, m);
}

/// A difference of no more than `m` quarters is off by no more than `m` grains.
pub(crate) proof fn lemma_minus(x: Single, y: Single, lo: int, hi: int, m: int)
    requires
        laws::is_finite(x),
        laws::is_finite(y),
        lo * quarter() <= units_of(x) - units_of(y) <= hi * quarter(),
        -m <= lo <= hi <= m < 0x10_0000,
    ensures
        within(x.minus(y), lo, hi),
        close(units_of(x.minus(y)), units_of(x) - units_of(y), m * grain()),
{
    reveal(units_of);
    lemma_total(x.number(), number::negated(y.number()), lo, hi, m);
}

proof fn lemma_total(x: Number, y: Number, lo: int, hi: int, m: int)
    requires
        number::is_finite(Format::Single, x),
        number::is_finite(Format::Single, y),
        lo * quarter() <= number::signed_units(Format::Single, x) + number::signed_units(
            Format::Single,
            y,
        ) <= hi * quarter(),
        -m <= lo <= hi <= m < 0x10_0000,
    ensures
        ({
            let f = Format::Single;
            let z = Single::of(number::sum(f, x, y));
            let t = number::signed_units(f, x) + number::signed_units(f, y);
            within(z, lo, hi) && close(units_of(z), t, m * grain())
        }),
{
    reveal(units_of);
    let f = Format::Single;
    let r = number::sum(f, x, y);
    let t = number::signed_units(f, x) + number::signed_units(f, y);
    let q = quarter();
    number::lemma_round_zero(f, 1);
    assert(grid::units(f, 0) == 0);
    assert((lo * q) * 1 == lo * q && (hi * q) * 1 == hi * q);
    if t < 0 {
        laws::law_nearest_exists(f, (-t) as nat, 1);
    } else {
        laws::law_nearest_exists(f, t as nat, 1);
    }
    lemma_rounded(t, 1, r, lo, hi, m);
    let s = number::signed_units(f, r);
    assert(s * 1 == s && (m * grain()) * 1 == m * grain());
    assert(Single::of(r).number() == r);
}

/// A product of no more than `m` quarters is off by little more than `m` grains.
pub(crate) proof fn lemma_times(x: Single, y: Single, lo: int, hi: int, m: int)
    requires
        laws::is_finite(x),
        laws::is_finite(y),
        (lo * quarter()) * whole() <= units_of(x) * units_of(y) <= (hi * quarter()) * whole(),
        -m <= lo <= hi <= m < 0x10_0000,
    ensures
        within(x.times(y), lo, hi),
        close(
            units_of(x.times(y)) * whole(),
            units_of(x) * units_of(y),
            ((m + 1) * grain()) * whole(),
        ),
{
    reveal(units_of);
    let f = Format::Single;
    let (a, b) = (x.number(), y.number());
    let r = number::product(f, a, b);
    let (u, v) = (grid::units(f, a.index as nat), grid::units(f, b.index as nat));
    let n = u * v;
    let t = units_of(x) * units_of(y);
    let d = pow2(149);
    lemma_measures();
    number::lemma_round_zero(f, d);
    laws::law_nearest_exists(f, n, d);
    assert(t == if a.negative != b.negative { -(n as int) } else { n as int }) by (nonlinear_arith)
        requires
            t == units_of(x) * units_of(y),
            n == u * v,
            units_of(x) == if a.negative { -(u as int) } else { u as int },
            units_of(y) == if b.negative { -(v as int) } else { v as int },
    ;
    lemma_rounded(t, d, r, lo, hi, m);
    assert(Single::of(r).number() == r);
    let g = grain();
    assert(2 * (((m + 1) * g) * d) >= 2 * ((m * g) * d) + d) by (nonlinear_arith)
        requires
            g > 0,
            d > 0,
    ;
}

/// A ratio of no more than `m` quarters is off by little more than `m` grains.
pub(crate) proof fn lemma_over(x: Single, y: Single, lo: int, hi: int, m: int)
    requires
        laws::is_finite(x),
        laws::is_finite(y),
        units_of(y) > 0,
        (lo * quarter()) * units_of(y) <= units_of(x) * whole() <= (hi * quarter()) * units_of(y),
        -m <= lo <= hi <= m < 0x10_0000,
    ensures
        within(x.over(y), lo, hi),
        close(
            units_of(x.over(y)) * units_of(y),
            units_of(x) * whole(),
            ((m + 1) * grain()) * units_of(y),
        ),
{
    reveal(units_of);
    let f = Format::Single;
    let (a, b) = (x.number(), y.number());
    let r = number::quotient(f, a, b);
    let (u, d) = (grid::units(f, a.index as nat), grid::units(f, b.index as nat));
    let n = u * pow2(149);
    let t = units_of(x) * whole();
    lemma_measures();
    assert(grid::units(f, 0) == 0);
    assert(!b.negative && d > 0);
    number::lemma_round_zero(f, d);
    laws::law_nearest_exists(f, n, d);
    assert(t == if a.negative { -(n as int) } else { n as int }) by (nonlinear_arith)
        requires
            t == units_of(x) * pow2(149),
            n == u * pow2(149),
            units_of(x) == if a.negative { -(u as int) } else { u as int },
    ;
    lemma_rounded(t, d, r, lo, hi, m);
    assert(Single::of(r).number() == r);
    let g = grain();
    assert(2 * (((m + 1) * g) * d) >= 2 * ((m * g) * d) + d) by (nonlinear_arith)
        requires
            g > 0,
            d > 0,
    ;
}

/// Values stand in the order of their units.
pub(crate) proof fn lemma_order(x: Single, y: Single)
    requires
        laws::is_finite(x),
        laws::is_finite(y),
    ensures
        x.at_most(y) <==> units_of(x) <= units_of(y),
        x.less(y) <==> units_of(x) < units_of(y),
{
    reveal(units_of);
    let f = Format::Single;
    let (a, b) = (x.number().index as nat, y.number().index as nat);
    assert(grid::units(f, 0) == 0);
    if a > 0 {
        grid::lemma_units_increase(f, 0, a);
    }
    if b > 0 {
        grid::lemma_units_increase(f, 0, b);
    }
    if a < b {
        grid::lemma_units_increase(f, a, b);
    } else if b < a {
        grid::lemma_units_increase(f, b, a);
    }
}

/// 0.0 and 1.0.
pub(crate) proof fn lemma_ends()
    ensures
        within(Single::zero(), 0, 0),
        within(Single::one(), 4, 4),
        units_of(Single::zero()) == 0,
        units_of(Single::one()) == whole(),
{
    reveal(units_of);
    lemma_measures();
    identity::lemma_sizes();
    assert(0 * quarter() == 0);
}

/// A product with a factor from 0 to `b` quarters.
pub(crate) proof fn lemma_scaled(x: Single, y: Single, lo: int, hi: int, b: int, low: int, high: int, m: int)
    requires
        within(x, lo, hi),
        within(y, 0, b),
        lo <= 0 <= hi,
        4 * low <= lo * b,
        hi * b <= 4 * high,
        -m <= low <= high <= m < 0x10_0000,
    ensures
        within(x.times(y), low, high),
        close(
            units_of(x.times(y)) * whole(),
            units_of(x) * units_of(y),
            ((m + 1) * grain()) * whole(),
        ),
{
    let (u, v, q, p) = (units_of(x), units_of(y), quarter(), whole());
    lemma_measures();
    assert((low * q) * p <= u * v) by (nonlinear_arith)
        requires
            lo * q <= u,
            0 <= v <= b * q,
            lo <= 0,
            4 * low <= lo * b,
            p == 4 * q,
            q > 0,
    {
        assert((lo * q) * v <= u * v);
        assert((lo * q) * v >= (lo * q) * (b * q));
        assert((lo * q) * (b * q) == (lo * b) * (q * q));
        assert((low * q) * p == (4 * low) * (q * q));
        assert((4 * low) * (q * q) <= (lo * b) * (q * q));
    }
    assert(u * v <= (high * q) * p) by (nonlinear_arith)
        requires
            u <= hi * q,
            0 <= v <= b * q,
            hi >= 0,
            hi * b <= 4 * high,
            p == 4 * q,
            q > 0,
    {
        assert(u * v <= (hi * q) * v);
        assert((hi * q) * v <= (hi * q) * (b * q));
        assert((hi * q) * (b * q) == (hi * b) * (q * q));
        assert((high * q) * p == (4 * high) * (q * q));
        assert((hi * b) * (q * q) <= (4 * high) * (q * q));
    }
    assert(0 * q == 0);
    lemma_times(x, y, low, high, m);
}

/// A product with a factor of either sign, up to `b` quarters.
pub(crate) proof fn lemma_multiplied(x: Single, y: Single, a: int, b: int, m: int)
    requires
        within(x, -a, a),
        within(y, -b, b),
        a * b <= 4 * m,
        0 <= a,
        0 <= b,
        0 <= m < 0x10_0000,
    ensures
        within(x.times(y), -m, m),
        close(
            units_of(x.times(y)) * whole(),
            units_of(x) * units_of(y),
            ((m + 1) * grain()) * whole(),
        ),
{
    let (u, v, q, p) = (units_of(x), units_of(y), quarter(), whole());
    lemma_measures();
    assert(-a * q == -(a * q) && -b * q == -(b * q) && -m * q == -(m * q)) by (nonlinear_arith);
    assert(-((a * q) * (b * q)) <= u * v <= (a * q) * (b * q)) by (nonlinear_arith)
        requires
            -(a * q) <= u <= a * q,
            -(b * q) <= v <= b * q,
    ;
    assert((a * q) * (b * q) <= (m * q) * p) by (nonlinear_arith)
        requires
            a * b <= 4 * m,
            p == 4 * q,
            q > 0,
    {
        assert((a * q) * (b * q) == (a * b) * (q * q));
        assert((m * q) * p == (4 * m) * (q * q));
        assert((a * b) * (q * q) <= (4 * m) * (q * q));
    }
    assert((-m * q) * p == -((m * q) * p)) by (nonlinear_arith);
    lemma_times(x, y, -m, m, m);
}

/// Holding two values between 0 and 1 takes them no farther apart.
pub(crate) proof fn lemma_clamped(x: Single, y: Single, k: int)
    requires
        laws::is_finite(x),
        laws::is_finite(y),
        close(units_of(x), units_of(y), k * grain()),
    ensures
        ({
            let (zero, one) = (Single::zero(), Single::one());
            pair(x.clamped(zero, one), y.clamped(zero, one), 0, 4, k)
        }),
{
    let (zero, one) = (Single::zero(), Single::one());
    lemma_ends();
    lemma_measures();
    lemma_order(x, zero);
    lemma_order(one, x);
    lemma_order(y, zero);
    lemma_order(one, y);
    lemma_order(one, zero);
    assert(0 * quarter() == 0);
}

/// What holding a value between 0 and 1 leaves of it.
pub(crate) proof fn lemma_clamp(x: Single)
    requires
        laws::is_finite(x),
    ensures
        ({
            let h = units_of(x.clamped(Single::zero(), Single::one()));
            h == if units_of(x) < 0 { 0 } else if units_of(x) > whole() { whole() } else { units_of(x) }
        }),
{
    let (zero, one) = (Single::zero(), Single::one());
    lemma_ends();
    lemma_measures();
    lemma_order(x, zero);
    lemma_order(one, x);
    lemma_order(one, zero);
}

/// A control from -1 to 1.
pub(crate) proof fn lemma_control(v: Single)
    requires
        Single::one().opposite().at_most(v),
        v.at_most(Single::one()),
    ensures
        within(v, -4, 4),
{
    reveal(units_of);
    let one = Single::one();
    lemma_ends();
    lemma_measures();
    assert(one.opposite().number() == number::negated(one.number()));
    assert(laws::is_finite(v));
    lemma_order(one.opposite(), v);
    lemma_order(v, one);
}

} // verus!
