//! The identity cube is an identity.
//!
//! Trilinear interpolation over the eight corners of the unit cube gives every
//! color back, up to the rounding of the arithmetic. The proof follows the
//! rounding error through the mixes, in units of the smallest value.

use crate::color::lut;
use crate::color::lut::gpu;
use crate::ieee::grid;
use crate::ieee::grid::Format;
use crate::ieee::laws;
use crate::ieee::number;
use crate::ieee::single::Single;
use vstd::arithmetic::div_mod::*;
use vstd::arithmetic::power2::*;
use vstd::prelude::*;

verus! {

/// A number that is not below zero.
pub open spec fn plain(x: Single) -> bool {
    !x.nan() && (!x.number().negative || x.number().index == 0)
}

/// The value of such a number, in units.
pub open spec fn amount(x: Single) -> int {
    grid::units(Format::Single, x.number().index as nat) as int
}

/// One, in units.
pub open spec fn unity() -> int {
    pow2(149) as int
}

/// The largest error of rounding a value up to two: 2^-24.
pub open spec fn slip() -> int {
    pow2(125) as int
}

/// `x` is within `e` units of `v`.
pub open spec fn close(x: int, v: int, e: int) -> bool {
    v - e <= x <= v + e
}

pub(crate) proof fn lemma_sizes()
    ensures
        slip() > 0,
        unity() == 0x100_0000 * slip(),
        grid::units(Format::Single, 0x3f80_0000) == unity(),
        grid::units(Format::Single, 0x4000_0000) == 2 * unity(),
        grid::units(Format::Single, 0) == 0,
        pow2(126) == 2 * slip(),
{
    lemma2_to64();
    lemma_pow2_pos(125);
    lemma_pow2_adds(24, 125);
    lemma_pow2_adds(23, 126);
    lemma_pow2_adds(23, 127);
    lemma_pow2_unfold(126);
    lemma_pow2_unfold(127);
    let p = pow2(126);
    assert(0x3f80_0000nat / 0x80_0000nat == 127 && 0x3f80_0000nat % 0x80_0000nat == 0);
    assert(0x4000_0000nat / 0x80_0000nat == 128 && 0x4000_0000nat % 0x80_0000nat == 0);
    assert(0x80_0000 * (2 * p) == 2 * (0x80_0000 * p)) by (nonlinear_arith);
}

/// Below two, neighbouring magnitudes are at most two slips apart.
proof fn lemma_gap(k: nat)
    requires
        k < 0x4000_0000,
    ensures
        grid::units(Format::Single, k + 1) - grid::units(Format::Single, k) <= 2 * slip(),
{
    let f = Format::Single;
    let b = f.binade();
    let (e, r) = grid::lemma_split(f, k);
    assert(e <= 126) by (nonlinear_arith)
        requires
            k == e * b + r,
            k < 128 * b,
            e == 0 || b <= r,
            b > 0,
    ;
    grid::lemma_units_at(f, e, (r + 1) as nat);
    assert(k + 1 == e * b + (r + 1));
    let p = pow2(e);
    assert((r + 1) * p == r * p + p) by (nonlinear_arith);
    lemma_sizes();
    if e < 126 {
        lemma_pow2_strictly_increases(e, 126);
    }
}

/// Rounding a value up to two slips by at most 2^-24.
pub(crate) proof fn lemma_round_error(n: nat, d: nat)
    requires
        d > 0,
        n <= 2 * unity() * d,
    ensures
        ({
            let k = grid::round_magnitude(Format::Single, n, d);
            &&& k <= 0x4000_0000
            &&& close(grid::units(Format::Single, k) as int * d, n as int, slip() * d)
        }),
{
    let f = Format::Single;
    let two = 0x4000_0000nat;
    lemma_sizes();
    laws::law_nearest_exists(f, n, d);
    let k = grid::round_magnitude(f, n, d);
    laws::law_rounding_keeps_values(f, two, d);
    assert(n * d <= (grid::units(f, two) * d) * d) by (nonlinear_arith)
        requires
            n <= grid::units(f, two) * d,
            d > 0,
    ;
    laws::law_rounding_keeps_order(f, n, d, grid::units(f, two) * d, d);
    let u = grid::units(f, k) as int;
    let s = slip();
    if k > 0 {
        lemma_gap((k - 1) as nat);
        let w = grid::units(f, (k - 1) as nat) as int;
        assert((w + u) * d <= 2 * n);
        assert(u * d <= n + s * d) by (nonlinear_arith)
            requires
                (w + u) * d <= 2 * n,
                u - w <= 2 * s,
                d > 0,
        ;
    } else {
        assert(u * d <= n + s * d) by (nonlinear_arith)
            requires
                u == 0,
                s > 0,
                d > 0,
                n >= 0,
        ;
    }
    if k < two {
        lemma_gap(k);
        let w = grid::units(f, k + 1) as int;
        assert(2 * n <= (u + w) * d);
        assert(n <= u * d + s * d) by (nonlinear_arith)
            requires
                2 * n <= (u + w) * d,
                w - u <= 2 * s,
                d > 0,
        ;
    } else {
        assert(n <= u * d);
        assert(s * d > 0) by (nonlinear_arith)
            requires
                s > 0,
                d > 0,
        ;
    }
}

pub(crate) proof fn lemma_one_less(f: Single)
    requires
        plain(f),
        amount(f) <= unity(),
    ensures
        ({
            let g = Single::one().minus(f);
            &&& plain(g)
            &&& close(amount(g), unity() - amount(f), slip())
            &&& amount(f) == 0 ==> amount(g) == unity()
        }),
{
    let n = (unity() - amount(f)) as nat;
    lemma_sizes();
    lemma_finite(f);
    lemma_round_error(n, 1);
    laws::law_nearest_exists(Format::Single, n, 1);
    laws::law_rounding_keeps_values(Format::Single, 0x3f80_0000, 1);
    let k = grid::round_magnitude(Format::Single, n, 1);
    assert(grid::units(Format::Single, k) * 1 == grid::units(Format::Single, k));
    assert(unity() * 1 == unity());
    let g = Single::one().minus(f);
    assert(g.number() == (number::Number { negative: false, index: k as u64 }));
}

pub(crate) proof fn lemma_product(v: Single, f: Single)
    requires
        plain(v),
        plain(f),
        amount(v) <= unity() + 40 * slip(),
        amount(f) <= unity() + slip(),
    ensures
        plain(v.times(f)),
        close(amount(v.times(f)) * unity(), amount(v) * amount(f), slip() * unity()),
        amount(v) == 0 || amount(f) == 0 ==> amount(v.times(f)) == 0,
{
    let one = unity();
    let s = slip();
    let a = amount(v);
    let b = amount(f);
    let n = (a * b) as nat;
    lemma_sizes();
    lemma_finite(v);
    lemma_finite(f);
    assert(0 <= a * b <= 2 * one * one) by (nonlinear_arith)
        requires
            0 <= a <= one + 40 * s,
            0 <= b <= one + s,
            one == 0x100_0000 * s,
            s > 0,
    ;
    lemma_round_error(n, one as nat);
    laws::law_nearest_exists(Format::Single, n, one as nat);
    let k = grid::round_magnitude(Format::Single, n, one as nat);
    assert(v.times(f).number().index == k);
    if a == 0 || b == 0 {
        assert(a * b == 0) by (nonlinear_arith)
            requires
                a == 0 || b == 0,
        ;
        number::lemma_round_zero(Format::Single, one as nat);
    }
    // A negative zero among the factors makes a zero.
    if v.number().negative || f.number().negative {
        if v.number().negative {
            assert(a == 0);
        } else {
            assert(b == 0);
        }
    }
}

pub(crate) proof fn lemma_sum(a: Single, b: Single)
    requires
        plain(a),
        plain(b),
        amount(a) + amount(b) <= 2 * unity(),
    ensures
        plain(a.plus(b)),
        close(amount(a.plus(b)), amount(a) + amount(b), slip()),
        amount(a) == 0 ==> amount(a.plus(b)) == amount(b),
{
    let f = Format::Single;
    let n = (amount(a) + amount(b)) as nat;
    lemma_sizes();
    lemma_finite(a);
    lemma_finite(b);
    if a.number().index == 0 && b.number().index == 0 {
        assert(a.plus(b).number().index == 0);
    } else {
        lemma_round_error(n, 1);
        laws::law_nearest_exists(f, n, 1);
        let k = grid::round_magnitude(f, n, 1);
        assert(grid::units(f, k) * 1 == grid::units(f, k));
        assert(a.plus(b).number() == (number::Number { negative: false, index: k as u64 }));
        if amount(a) == 0 {
            laws::law_rounding_keeps_values(f, b.number().index as nat, 1);
            assert(amount(b) * 1 == amount(b));
        }
    }
}

/// An amount up to two belongs to a finite number.
pub(crate) proof fn lemma_finite(x: Single)
    requires
        plain(x),
        amount(x) <= 2 * unity(),
    ensures
        laws::is_finite(x),
        amount(x) == 0 <==> x.number().index == 0,
{
    let f = Format::Single;
    lemma_sizes();
    let k = x.number().index as nat;
    if k > 0x4000_0000 {
        grid::lemma_units_increase(f, 0x4000_0000, k);
    }
    if k > 0 {
        grid::lemma_units_increase(f, 0, k);
    }
}

/// Mixing a value with itself gives it back, up to five slips.
proof fn lemma_mix_same(v: Single, w: Single, f: Single)
    requires
        plain(v),
        plain(w),
        plain(f),
        amount(v) == amount(w),
        amount(v) <= unity() + 15 * slip(),
        amount(f) <= unity(),
    ensures
        plain(lut::mixed(v, w, f)),
        close(amount(lut::mixed(v, w, f)), amount(v), 5 * slip()),
        amount(v) == 0 ==> amount(lut::mixed(v, w, f)) == 0,
{
    let one = unity();
    let s = slip();
    lemma_sizes();
    let g = Single::one().minus(f);
    lemma_one_less(f);
    let a = v.times(g);
    let b = w.times(f);
    lemma_product(v, g);
    lemma_product(w, f);
    let (x, y, z) = (amount(v), amount(g), amount(f));
    let (p, q) = (amount(a), amount(b));
    assert(close((p + q) * one, x * one, 4 * s * one)) by (nonlinear_arith)
        requires
            close(p * one, x * y, s * one),
            close(q * one, x * z, s * one),
            close(y, one - z, s),
            0 <= x <= one + 15 * s,
            one == 0x100_0000 * s,
            s > 0,
    ;
    assert(close(p + q, x, 4 * s)) by (nonlinear_arith)
        requires
            close((p + q) * one, x * one, 4 * s * one),
            one > 0,
    ;
    lemma_sum(a, b);
}

/// Mixing zero with a value near one gives the fraction, up to one slip more
/// than the value was off.
proof fn lemma_mix_from_zero(v: Single, w: Single, f: Single, e: int)
    requires
        plain(v),
        plain(w),
        plain(f),
        amount(v) == 0,
        close(amount(w), unity(), e),
        0 <= e <= 10 * slip(),
        amount(f) <= unity(),
    ensures
        plain(lut::mixed(v, w, f)),
        close(amount(lut::mixed(v, w, f)), amount(f), e + slip()),
{
    let one = unity();
    let s = slip();
    lemma_sizes();
    let g = Single::one().minus(f);
    lemma_one_less(f);
    let a = v.times(g);
    let b = w.times(f);
    lemma_product(v, g);
    lemma_product(w, f);
    let (x, z, q) = (amount(w), amount(f), amount(b));
    assert(close(q * one, z * one, (e + s) * one)) by (nonlinear_arith)
        requires
            close(q * one, x * z, s * one),
            close(x, one, e),
            0 <= z <= one,
            e >= 0,
    ;
    assert(close(q, z, e + s)) by (nonlinear_arith)
        requires
            close(q * one, z * one, (e + s) * one),
            one > 0,
    ;
    lemma_sum(a, b);
}

/// The domain from 0 to 1 leaves a value in it as it is.
pub(crate) proof fn lemma_placed(x: Single)
    requires
        plain(x),
        x.at_most(Single::one()),
    ensures
        plain(lut::placed(x, Single::zero(), Single::one())),
        lut::placed(x, Single::zero(), Single::one()).number().index == x.number().index,
        !x.number().negative ==> lut::placed(x, Single::zero(), Single::one()) == x,
        x.number().index <= 0x3f80_0000,
        0 <= amount(x) <= unity(),
        amount(x) == unity() <==> x == Single::one(),
{
    let f = Format::Single;
    let one = Single::one();
    let zero = Single::zero();
    let k = x.number().index as nat;
    lemma_sizes();
    grid::lemma_units_increase(f, 0, k);
    assert(k <= 0x3f80_0000);
    grid::lemma_units_increase(f, k, 0x3f80_0000);
    laws::law_rounding_keeps_values(f, 0x3f80_0000, 1);
    assert(unity() * 1 == unity());
    assert(one.minus(zero) == one) by {
        assert(number::signed_units(f, number::negated(zero.number())) == 0);
    }
    laws::law_rounding_keeps_values(f, k, 1);
    assert(amount(x) * 1 == amount(x));
    let moved = x.minus(zero);
    assert(plain(moved) && moved.number().index == k);
    laws::law_rounding_keeps_values(f, k, unity() as nat);
    let placed = moved.over(one);
    assert(placed.number().index == k && plain(placed));
    assert(lut::placed(x, zero, one) == placed);
    if !x.number().negative {
        assert(moved.number() == x.number());
        assert(placed.number() == x.number());
        assert(Single::of(placed.number()) == Single::of(x.number()));
    }
}

/// Where a value between 0 and 1 lies between the two entries of an axis.
proof fn lemma_axis(x: Single) -> (r: lut::Between)
    requires
        plain(x),
        x.at_most(Single::one()),
    ensures
        ({
            let p = lut::placed(x, Single::zero(), Single::one());
            r == lut::between(p.times(Single::from_u64(1)), 1)
        }),
        r.high == 1,
        plain(r.past),
        0 <= amount(x) <= unity(),
        amount(x) < unity() ==> r.low == 0 && amount(r.past) == amount(x),
        amount(x) == unity() ==> r.low == 1 && amount(r.past) == 0,
{
    let f = Format::Single;
    let one = Single::one();
    let zero = Single::zero();
    let k = x.number().index as nat;
    lemma_sizes();
    lemma_integers();
    lemma_placed(x);
    let p = lut::placed(x, zero, one);
    laws::law_times_one(p);
    let at = p.times(one);
    assert(at == p);
    let r = lut::between(at, 1);
    lemma_pow2_pos(149);
    if amount(x) < unity() {
        lemma_basic_div(amount(x), unity());
        assert(at.trunc_u64() == 0);
        laws::law_rounding_keeps_values(f, k, 1);
        assert(amount(x) * 1 == amount(x));
        let past = at.minus(Single::from_u64(0));
        assert(plain(past) && past.number().index == k);
    } else {
        assert(at == one);
        laws::law_whole_part_of_one(at);
        laws::law_minus_itself(one);
    }
    r
}

/// 0 and 1 as numbers.
proof fn lemma_integers()
    ensures
        Single::from_u64(0) == Single::zero(),
        Single::from_u64(1) == Single::one(),
{
    let f = Format::Single;
    lemma_sizes();
    number::lemma_round_zero(f, 1);
    assert(0 * pow2(149) == 0);
    laws::law_rounding_keeps_values(f, 0x3f80_0000, 1);
    assert(pow2(149) * 1 == pow2(149) && 1 * pow2(149) == pow2(149));
}

/// A table is the identity cube: two entries per axis, the corners of the unit
/// cube, on the domain from 0 to 1.
pub open spec fn is_identity_cube(t: lut::Table) -> bool {
    &&& t.cube
    &&& t.size == 2
    &&& t.domain_min == [Single::zero(), Single::zero(), Single::zero()]
    &&& t.domain_max == [Single::one(), Single::one(), Single::one()]
    &&& forall|r: nat, g: nat, b: nat|
        r < 2 && g < 2 && b < 2 ==> #[trigger] t.entry(r, g, b) == gpu::corners()(r, g, b)
}

/// The identity cube gives every color from 0 to 1 back, each channel to within
/// a hundred-thousandth.
pub proof fn law_identity_cube_is_identity(t: lut::Table, rgb: [Single; 3], ch: int)
    requires
        is_identity_cube(t),
        0 <= ch < 3,
        forall|i: int|
            0 <= i < 3 ==> Single::zero().at_most(#[trigger] rgb[i]) && rgb[i].at_most(Single::one()),
    ensures
        plain(t.sampled(rgb)[ch]),
        -unity() < (amount(t.sampled(rgb)[ch]) - amount(rgb[ch])) * 100_000 < unity(),
{
    assert(plain(rgb[0]) && plain(rgb[1]) && plain(rgb[2]));
    let p = t.normalized(rgb);
    let x = lemma_axis(rgb[0]);
    let y = lemma_axis(rgb[1]);
    let z = lemma_axis(rgb[2]);
    lemma_sizes();
    lemma_integers();
    assert(t.sampled(rgb)[ch] == t.cube_at(p, ch));
    if ch == 0 {
        lemma_red(t, p, x, y, z, amount(rgb[0]));
    } else if ch == 1 {
        lemma_green(t, p, x, y, z, amount(rgb[1]));
    } else {
        lemma_blue(t, p, x, y, z, amount(rgb[2]));
    }
}

/// The positions on the three axes are those of the color `p`.
spec fn on_axes(t: lut::Table, p: [Single; 3], x: lut::Between, y: lut::Between, z: lut::Between) -> bool {
    &&& is_identity_cube(t)
    &&& x == lut::between(p[0].times(Single::from_u64(1)), 1)
    &&& y == lut::between(p[1].times(Single::from_u64(1)), 1)
    &&& z == lut::between(p[2].times(Single::from_u64(1)), 1)
    &&& x.low <= 1 && y.low <= 1 && z.low <= 1
    &&& x.high == 1 && y.high == 1 && z.high == 1
    &&& plain(x.past) && plain(y.past) && plain(z.past)
    &&& amount(x.past) <= unity() && amount(y.past) <= unity() && amount(z.past) <= unity()
}

/// The axis shows the value `v`.
spec fn shows(x: lut::Between, v: int) -> bool {
    (v < unity() && x.low == 0 && amount(x.past) == v) || (v == unity() && x.low == 1 && amount(x.past) == 0)
}

/// Mixing along the axis that shows `v` gives `v`, up to the error of its ends.
proof fn lemma_mix_axis(a: Single, b: Single, x: lut::Between, v: int, e: int)
    requires
        shows(x, v),
        plain(a),
        plain(b),
        plain(x.past),
        0 <= v <= unity(),
        amount(x.past) <= unity(),
        0 <= e <= 10 * slip(),
        close(amount(b), unity(), e),
        x.low == 0 ==> amount(a) == 0,
        x.low == 1 ==> amount(a) == amount(b),
    ensures
        plain(lut::mixed(a, b, x.past)),
        close(amount(lut::mixed(a, b, x.past)), v, e + 5 * slip()),
{
    lemma_sizes();
    if x.low == 0 {
        lemma_mix_from_zero(a, b, x.past, e);
    } else {
        lemma_mix_same(a, b, x.past);
    }
}

proof fn lemma_entry(t: lut::Table, r: nat, g: nat, b: nat)
    requires
        is_identity_cube(t),
        r < 2,
        g < 2,
        b < 2,
    ensures
        ({
            let c = t.entry(r, g, b);
            &&& plain(c[0]) && plain(c[1]) && plain(c[2])
            &&& amount(c[0]) == r * unity()
            &&& amount(c[1]) == g * unity()
            &&& amount(c[2]) == b * unity()
        }),
{
    lemma_sizes();
    lemma_integers();
    assert(t.entry(r, g, b) == gpu::corners()(r, g, b));
    assert(0 * unity() == 0 && 1 * unity() == unity());
}

proof fn lemma_red(t: lut::Table, p: [Single; 3], x: lut::Between, y: lut::Between, z: lut::Between, v: int)
    requires
        on_axes(t, p, x, y, z),
        shows(x, v),
        0 <= v <= unity(),
    ensures
        plain(t.cube_at(p, 0)),
        close(amount(t.cube_at(p, 0)), v, 15 * slip()),
{
    lemma_sizes();
    assert(0 * unity() == 0 && 1 * unity() == unity());
    let low = Single::from_u64(x.low as u64);
    let high = Single::from_u64(1);
    lemma_integers();
    lemma_entry(t, x.low, y.low, z.low);
    lemma_entry(t, x.high, y.low, z.low);
    assert(t.entry(x.low, y.low, z.low) == gpu::corners()(x.low, y.low, z.low));
    assert(t.entry(x.low, y.high, z.low) == gpu::corners()(x.low, y.high, z.low));
    assert(t.entry(x.low, y.low, z.high) == gpu::corners()(x.low, y.low, z.high));
    assert(t.entry(x.low, y.high, z.high) == gpu::corners()(x.low, y.high, z.high));
    assert(t.entry(x.high, y.low, z.low) == gpu::corners()(x.high, y.low, z.low));
    assert(t.entry(x.high, y.high, z.low) == gpu::corners()(x.high, y.high, z.low));
    assert(t.entry(x.high, y.low, z.high) == gpu::corners()(x.high, y.low, z.high));
    assert(t.entry(x.high, y.high, z.high) == gpu::corners()(x.high, y.high, z.high));
    let a = lut::mixed(low, high, x.past);
    lemma_mix_axis(low, high, x, v, 0);
    let c = lut::mixed(a, a, y.past);
    lemma_mix_same(a, a, y.past);
    assert(t.cube_at(p, 0) == lut::mixed(c, c, z.past));
    lemma_mix_same(c, c, z.past);
}

proof fn lemma_green(t: lut::Table, p: [Single; 3], x: lut::Between, y: lut::Between, z: lut::Between, v: int)
    requires
        on_axes(t, p, x, y, z),
        shows(y, v),
        0 <= v <= unity(),
    ensures
        plain(t.cube_at(p, 1)),
        close(amount(t.cube_at(p, 1)), v, 15 * slip()),
{
    lemma_sizes();
    assert(0 * unity() == 0 && 1 * unity() == unity());
    let low = Single::from_u64(y.low as u64);
    let high = Single::from_u64(1);
    lemma_integers();
    lemma_entry(t, x.low, y.low, z.low);
    lemma_entry(t, x.low, y.high, z.low);
    assert(t.entry(x.low, y.low, z.low) == gpu::corners()(x.low, y.low, z.low));
    assert(t.entry(x.low, y.high, z.low) == gpu::corners()(x.low, y.high, z.low));
    assert(t.entry(x.low, y.low, z.high) == gpu::corners()(x.low, y.low, z.high));
    assert(t.entry(x.low, y.high, z.high) == gpu::corners()(x.low, y.high, z.high));
    assert(t.entry(x.high, y.low, z.low) == gpu::corners()(x.high, y.low, z.low));
    assert(t.entry(x.high, y.high, z.low) == gpu::corners()(x.high, y.high, z.low));
    assert(t.entry(x.high, y.low, z.high) == gpu::corners()(x.high, y.low, z.high));
    assert(t.entry(x.high, y.high, z.high) == gpu::corners()(x.high, y.high, z.high));
    let a = lut::mixed(low, low, x.past);
    let b = lut::mixed(high, high, x.past);
    lemma_mix_same(low, low, x.past);
    lemma_mix_same(high, high, x.past);
    let c = lut::mixed(a, b, y.past);
    lemma_mix_axis(a, b, y, v, 5 * slip());
    assert(t.cube_at(p, 1) == lut::mixed(c, c, z.past));
    lemma_mix_same(c, c, z.past);
}

proof fn lemma_blue(t: lut::Table, p: [Single; 3], x: lut::Between, y: lut::Between, z: lut::Between, v: int)
    requires
        on_axes(t, p, x, y, z),
        shows(z, v),
        0 <= v <= unity(),
    ensures
        plain(t.cube_at(p, 2)),
        close(amount(t.cube_at(p, 2)), v, 15 * slip()),
{
    lemma_sizes();
    assert(0 * unity() == 0 && 1 * unity() == unity());
    let low = Single::from_u64(z.low as u64);
    let high = Single::from_u64(1);
    lemma_integers();
    lemma_entry(t, x.low, y.low, z.low);
    lemma_entry(t, x.low, y.low, z.high);
    assert(t.entry(x.low, y.low, z.low) == gpu::corners()(x.low, y.low, z.low));
    assert(t.entry(x.low, y.high, z.low) == gpu::corners()(x.low, y.high, z.low));
    assert(t.entry(x.low, y.low, z.high) == gpu::corners()(x.low, y.low, z.high));
    assert(t.entry(x.low, y.high, z.high) == gpu::corners()(x.low, y.high, z.high));
    assert(t.entry(x.high, y.low, z.low) == gpu::corners()(x.high, y.low, z.low));
    assert(t.entry(x.high, y.high, z.low) == gpu::corners()(x.high, y.high, z.low));
    assert(t.entry(x.high, y.low, z.high) == gpu::corners()(x.high, y.low, z.high));
    assert(t.entry(x.high, y.high, z.high) == gpu::corners()(x.high, y.high, z.high));
    let a = lut::mixed(low, low, x.past);
    let b = lut::mixed(high, high, x.past);
    lemma_mix_same(low, low, x.past);
    lemma_mix_same(high, high, x.past);
    let c0 = lut::mixed(a, a, y.past);
    let c1 = lut::mixed(b, b, y.past);
    lemma_mix_same(a, a, y.past);
    lemma_mix_same(b, b, y.past);
    assert(t.cube_at(p, 2) == lut::mixed(c0, c1, z.past));
    lemma_mix_axis(c0, c1, z, v, 10 * slip());
}

} // verus!
