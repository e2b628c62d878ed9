//! What holds of the arithmetic as a whole.

use crate::ieee::grid;
use crate::ieee::grid::Format;
use crate::ieee::number;
use crate::ieee::number::Number;
use crate::ieee::single::Single;
use vstd::arithmetic::div_mod::*;
use vstd::arithmetic::power2::*;
use vstd::prelude::*;

verus! {

/// Every exact value has a nearest magnitude.
pub proof fn law_nearest_exists(f: Format, n: nat, d: nat)
    requires
        d > 0,
    ensures
        grid::nearest(f, grid::round_magnitude(f, n, d), n, d),
        grid::round_magnitude(f, n, d) <= f.infinity(),
{
    lemma_search(f, f.infinity(), n, d);
}

proof fn lemma_search(f: Format, k: nat, n: nat, d: nat)
    requires
        d > 0,
        k <= f.infinity(),
        k < f.infinity() ==> !grid::reaches(f, k + 1, n, d),
    ensures
        exists|j: nat| grid::nearest(f, j, n, d),
    decreases k,
{
    if grid::reaches(f, k, n, d) {
        assert(grid::nearest(f, k, n, d));
    } else {
        lemma_search(f, (k - 1) as nat, n, d);
    }
}

/// Rounding keeps order: a larger exact value rounds to no smaller magnitude.
pub proof fn law_rounding_keeps_order(f: Format, n: nat, d: nat, p: nat, q: nat)
    requires
        d > 0,
        q > 0,
        n * q <= p * d,
    ensures
        grid::round_magnitude(f, n, d) <= grid::round_magnitude(f, p, q),
{
    law_nearest_exists(f, n, d);
    law_nearest_exists(f, p, q);
    lemma_nearest_in_order(
        f,
        grid::round_magnitude(f, n, d),
        grid::round_magnitude(f, p, q),
        n,
        d,
        p,
        q,
    );
}

proof fn lemma_nearest_in_order(f: Format, j: nat, k: nat, n: nat, d: nat, p: nat, q: nat)
    requires
        d > 0,
        q > 0,
        n * q <= p * d,
        grid::nearest(f, j, n, d),
        grid::nearest(f, k, p, q),
    ensures
        j <= k,
{
    if k < j {
        let t = grid::twice_midpoint(f, k);
        let u = grid::twice_midpoint(f, (j - 1) as nat);
        assert(t <= u && (k + 1 < j ==> t < u)) by {
            grid::lemma_units_increase(f, k, (j - 1) as nat);
            grid::lemma_units_increase(f, k + 1, j);
        }
        let low = u * d;
        let high = t * q;
        assert(low < 2 * n || (low == 2 * n && j % 2 == 0));
        assert(2 * p < high || (2 * p == high && k % 2 == 0));
        // Both roundings are ties, so both indices are even and differ by more
        // than one; but then the midpoints differ.
        lemma_squeezed(t, u, n, d, p, q);
    }
}

proof fn lemma_squeezed(t: nat, u: nat, n: nat, d: nat, p: nat, q: nat)
    requires
        d > 0,
        q > 0,
        n * q <= p * d,
        t <= u,
        2 * p <= t * q,
        u * d <= 2 * n,
    ensures
        t == u,
        2 * p == t * q,
        u * d == 2 * n,
{
    let a = (2 * p) * d;
    let b = (t * q) * d;
    let c = (u * d) * q;
    let e = (2 * n) * q;
    assert(a <= b) by (nonlinear_arith)
        requires
            2 * p <= t * q,
            d > 0,
            a == (2 * p) * d,
            b == (t * q) * d,
    ;
    assert(c <= e) by (nonlinear_arith)
        requires
            u * d <= 2 * n,
            q > 0,
            c == (u * d) * q,
            e == (2 * n) * q,
    ;
    let g = q * d;
    assert(g > 0) by (nonlinear_arith)
        requires
            q > 0,
            d > 0,
            g == q * d,
    ;
    assert(b == t * g && c == u * g) by (nonlinear_arith)
        requires
            b == (t * q) * d,
            c == (u * d) * q,
            g == q * d,
    ;
    assert(t * g <= u * g) by (nonlinear_arith)
        requires
            t <= u,
            g > 0,
    ;
    assert(e <= a) by (nonlinear_arith)
        requires
            n * q <= p * d,
            e == (2 * n) * q,
            a == (2 * p) * d,
    ;
    assert(t == u) by (nonlinear_arith)
        requires
            t * g == u * g,
            g > 0,
    ;
    assert(2 * p == t * q) by (nonlinear_arith)
        requires
            (2 * p) * d == (t * q) * d,
            d > 0,
    ;
    assert(u * d == 2 * n) by (nonlinear_arith)
        requires
            (u * d) * q == (2 * n) * q,
            q > 0,
    ;
}

/// An exact magnitude rounds to itself.
pub proof fn law_rounding_keeps_values(f: Format, k: nat, d: nat)
    requires
        k <= f.infinity(),
        d > 0,
    ensures
        grid::round_magnitude(f, grid::units(f, k) * d, d) == k,
{
    let n = grid::units(f, k) * d;
    grid::lemma_nearest_exact(f, k, n, d);
    grid::lemma_round_is(f, k, n, d);
}

proof fn lemma_one_units()
    ensures
        grid::units(Format::Single, 0x3f80_0000) == pow2(149),
{
    lemma2_to64();
    lemma_pow2_adds(23, 126);
    assert(0x3f80_0000nat / 0x80_0000nat == 127);
    assert(0x3f80_0000nat % 0x80_0000nat == 0);
}

/// A value of at least one has a whole part of at least one.
pub proof fn law_whole_part_of_one(x: Single)
    requires
        Single::one().at_most(x),
    ensures
        x.trunc_u64() >= 1,
{
    let k = x.number().index as nat;
    lemma_one_units();
    assert(!x.number().negative && k >= 0x3f80_0000);
    grid::lemma_units_increase(Format::Single, 0x3f80_0000, k);
    lemma_pow2_pos(149);
    let u = grid::units(Format::Single, k);
    lemma_div_is_ordered(pow2(149) as int, u as int, pow2(149) as int);
    lemma_div_by_self(pow2(149) as int);
}

/// Bits of 2147483648.0.
pub const FAR_OUT: u32 = 0x4f00_0000;

/// Bits of 200.0.
pub const TWO_HUNDRED: u32 = 0x4348_0000;

/// Adding 200 to a value from 0 up to 2147483648 gives a larger one.
pub proof fn law_step_is_felt(x: Single)
    requires
        Single::zero().at_most(x),
        x.less(Single { bits: FAR_OUT }),
    ensures
        x.less(x.plus(Single { bits: TWO_HUNDRED })),
{
    let f = Format::Single;
    let b = f.binade();
    let y = Single { bits: TWO_HUNDRED };
    let k = x.number().index as nat;
    let j = TWO_HUNDRED as nat;
    let (e, r) = grid::lemma_split(f, k);
    assert(e <= 156) by (nonlinear_arith)
        requires
            k == e * b + r,
            k < 158 * b,
            e == 0 || b <= r,
            b > 0,
    ;
    grid::lemma_units_at(f, e, (r + 1) as nat);
    assert(k + 1 == e * b + (r + 1));
    let p = pow2(e);
    assert((r + 1) * p == r * p + p) by (nonlinear_arith);
    lemma2_to64();
    assert(j / b == 134 && j % b == 0x48_0000) by {
        assert(0x4348_0000nat / 0x80_0000nat == 134);
        assert(0x4348_0000nat % 0x80_0000nat == 0x48_0000);
    }
    lemma_pow2_adds(23, 133);
    lemma_pow2_pos(133);
    assert(grid::units(f, j) >= pow2(156)) by (nonlinear_arith)
        requires
            grid::units(f, j) == (b + 0x48_0000) * pow2(133),
            pow2(156) == b * pow2(133),
            pow2(133) > 0,
    ;
    if e < 156 {
        lemma_pow2_strictly_increases(e, 156);
    }
    let n = grid::units(f, k) + grid::units(f, j);
    assert(n >= grid::units(f, k + 1));
    law_rounding_keeps_values(f, k + 1, 1);
    assert(grid::units(f, k + 1) * 1 <= n * 1);
    law_rounding_keeps_order(f, grid::units(f, k + 1) * 1, 1, n, 1);
    law_nearest_exists(f, n, 1);
    let s = x.plus(y);
    let m = grid::round_magnitude(f, n, 1);
    assert(number::sum(f, x.number(), y.number()) == (Number { negative: false, index: m as u64 }));
    assert(s.number() == (Number { negative: false, index: m as u64 }));
}

/// The product of two values above zero is no NaN and not
/// below zero.
pub proof fn law_positive_product(x: Single, y: Single)
    requires
        Single::zero().less(x),
        Single::zero().less(y),
    ensures
        !x.times(y).nan(),
        Single::zero().at_most(x.times(y)),
{
    let f = Format::Single;
    let a = x.number();
    let b = y.number();
    let n = grid::units(f, a.index as nat) * grid::units(f, b.index as nat);
    lemma_pow2_pos(f.scale());
    law_nearest_exists(f, n, pow2(f.scale()));
}

pub open spec fn is_finite(x: Single) -> bool {
    number::is_finite(Format::Single, x.number())
}

proof fn lemma_signed_order(a: Number, b: Number)
    requires
        number::rank(a) <= number::rank(b),
    ensures
        number::signed_units(Format::Single, a) <= number::signed_units(Format::Single, b),
{
    let f = Format::Single;
    if a.negative && b.negative {
        grid::lemma_units_increase(f, b.index as nat, a.index as nat);
    } else if !a.negative && !b.negative {
        grid::lemma_units_increase(f, a.index as nat, b.index as nat);
    }
}

/// Rounding whole numbers of units keeps order across zero too.
proof fn lemma_units_order(s: int, t: int)
    requires
        s <= t,
    ensures
        number::rank(number::rounded_units(Format::Single, s)) <= number::rank(
            number::rounded_units(Format::Single, t),
        ),
        number::rounded_units(Format::Single, s).index <= Format::Single.infinity(),
{
    let f = Format::Single;
    if s < 0 {
        law_nearest_exists(f, (-s) as nat, 1);
    } else {
        law_nearest_exists(f, s as nat, 1);
    }
    if t < 0 {
        law_nearest_exists(f, (-t) as nat, 1);
        law_rounding_keeps_order(f, (-t) as nat, 1, (-s) as nat, 1);
    } else {
        law_nearest_exists(f, t as nat, 1);
        if s >= 0 {
            law_rounding_keeps_order(f, s as nat, 1, t as nat, 1);
        }
    }
}

/// The difference of finite values as rounded units, up to the sign of zero.
proof fn lemma_minus(x: Single, y: Single)
    requires
        is_finite(x),
        is_finite(y),
    ensures
        ({
            let f = Format::Single;
            let t = number::signed_units(f, x.number()) - number::signed_units(f, y.number());
            &&& x.minus(y).rank() == number::rank(number::rounded_units(f, t))
            &&& !x.minus(y).nan()
            &&& t != 0 ==> x.minus(y).number() == number::rounded_units(f, t)
        }),
{
    let f = Format::Single;
    let t = number::signed_units(f, x.number()) - number::signed_units(f, y.number());
    lemma_units_order(t, t);
    number::lemma_round_zero(f, 1);
    assert(grid::units(f, 0) == 0);
}

/// Taking the same value away keeps the order of finite values.
pub proof fn law_minus_keeps_order(x: Single, y: Single, z: Single)
    requires
        x.at_most(y),
        is_finite(x),
        is_finite(y),
        is_finite(z),
    ensures
        x.minus(z).at_most(y.minus(z)),
{
    let f = Format::Single;
    lemma_minus(x, z);
    lemma_minus(y, z);
    lemma_signed_order(x.number(), y.number());
    let w = number::signed_units(f, z.number());
    lemma_units_order(
        number::signed_units(f, x.number()) - w,
        number::signed_units(f, y.number()) - w,
    );
}

/// The sum of finite values as rounded units, up to the sign of zero.
proof fn lemma_plus(x: Single, y: Single)
    requires
        is_finite(x),
        is_finite(y),
    ensures
        ({
            let f = Format::Single;
            let t = number::signed_units(f, x.number()) + number::signed_units(f, y.number());
            &&& x.plus(y).rank() == number::rank(number::rounded_units(f, t))
            &&& !x.plus(y).nan()
        }),
{
    let f = Format::Single;
    let t = number::signed_units(f, x.number()) + number::signed_units(f, y.number());
    lemma_units_order(t, t);
    number::lemma_round_zero(f, 1);
    assert(grid::units(f, 0) == 0);
}

/// Adding the same value keeps the order of finite values.
pub proof fn law_plus_keeps_order(x: Single, y: Single, z: Single)
    requires
        x.at_most(y),
        is_finite(x),
        is_finite(y),
        is_finite(z),
    ensures
        z.plus(x).at_most(z.plus(y)),
{
    let f = Format::Single;
    lemma_plus(z, x);
    lemma_plus(z, y);
    lemma_signed_order(x.number(), y.number());
    let w = number::signed_units(f, z.number());
    lemma_units_order(
        w + number::signed_units(f, x.number()),
        w + number::signed_units(f, y.number()),
    );
}

/// Taking values away from the same value turns the order of finite values.
pub proof fn law_minus_turns_order(x: Single, y: Single, z: Single)
    requires
        x.at_most(y),
        is_finite(x),
        is_finite(y),
        is_finite(z),
    ensures
        z.minus(y).at_most(z.minus(x)),
{
    let f = Format::Single;
    lemma_minus(z, x);
    lemma_minus(z, y);
    lemma_signed_order(x.number(), y.number());
    let w = number::signed_units(f, z.number());
    lemma_units_order(
        w - number::signed_units(f, y.number()),
        w - number::signed_units(f, x.number()),
    );
}

/// A finite value less itself is zero.
pub proof fn law_minus_itself(x: Single)
    requires
        is_finite(x),
    ensures
        x.minus(x) == Single::zero(),
{
    number::lemma_round_zero(Format::Single, 1);
}

/// Adding a zero changes no value but the sign of zero.
pub proof fn law_plus_zero(x: Single, z: Single)
    requires
        !x.nan(),
        z.number().index == 0,
    ensures
        x.plus(z).equals(x),
        z.plus(x).equals(x),
        x.number().index != 0 ==> x.plus(z) == x && z.plus(x) == x,
{
    let f = Format::Single;
    let k = x.number().index as nat;
    assert(grid::units(f, 0) == 0);
    law_rounding_keeps_values(f, k, 1);
    assert(grid::units(f, k) * 1 == grid::units(f, k));
    if k > 0 {
        grid::lemma_units_increase(f, 0, k);
    }
}

/// Taking a zero away changes no value but the sign of zero.
pub proof fn law_minus_zero(x: Single, z: Single)
    requires
        !x.nan(),
        z.number().index == 0,
    ensures
        x.minus(z).equals(x),
        x.number().index != 0 ==> x.minus(z) == x,
{
    let n = z.opposite();
    assert(n.number() == number::negated(z.number()));
    law_plus_zero(x, n);
    assert(x.minus(z) == x.plus(n));
}

/// A difference from a value that is no less, and no zero, has no minus sign.
pub proof fn law_minus_not_negative(x: Single, y: Single)
    requires
        y.at_most(x),
        is_finite(x),
        is_finite(y),
        x.number().index != 0,
    ensures
        !x.minus(y).number().negative,
        !x.minus(y).nan(),
{
    let f = Format::Single;
    lemma_signed_order(y.number(), x.number());
    let t = number::signed_units(f, x.number()) - number::signed_units(f, y.number());
    lemma_units_order(t, t);
    number::lemma_round_zero(f, 1);
}

/// The order of two factors does not matter.
pub proof fn law_times_commutes(x: Single, y: Single)
    ensures
        x.times(y) == y.times(x),
{
    let f = Format::Single;
    let a = grid::units(f, x.number().index as nat);
    let b = grid::units(f, y.number().index as nat);
    assert(a * b == b * a) by (nonlinear_arith);
}

/// A value times one is itself.
pub proof fn law_times_one(x: Single)
    requires
        !x.nan(),
    ensures
        x.times(Single::one()) == x,
        Single::one().times(x) == x,
{
    let f = Format::Single;
    let k = x.number().index as nat;
    let p = pow2(149);
    lemma_one_units();
    lemma_pow2_pos(149);
    law_rounding_keeps_values(f, k, p);
    assert(p * grid::units(f, k) == grid::units(f, k) * p) by (nonlinear_arith);
}

/// A finite value times a zero is a zero.
pub proof fn law_times_zero(x: Single, z: Single)
    requires
        is_finite(x),
        z.number().index == 0,
    ensures
        x.times(z).number().index == 0,
        z.times(x).number().index == 0,
{
    let f = Format::Single;
    let u = grid::units(f, x.number().index as nat);
    assert(grid::units(f, 0) == 0);
    assert(u * 0 == 0);
    assert(0 * u == 0);
    lemma_pow2_pos(149);
    number::lemma_round_zero(f, pow2(149));
}

/// A finite value other than zero, over itself, is one.
pub proof fn law_over_itself(x: Single)
    requires
        is_finite(x),
        x.number().index != 0,
    ensures
        x.over(x) == Single::one(),
{
    let f = Format::Single;
    let u = grid::units(f, x.number().index as nat);
    grid::lemma_units_increase(f, 0, x.number().index as nat);
    lemma_one_units();
    law_rounding_keeps_values(f, 0x3f80_0000, u);
    assert(pow2(149) * u == u * pow2(149)) by (nonlinear_arith);
}

/// A zero over a value other than zero is a zero.
pub proof fn law_zero_over(z: Single, y: Single)
    requires
        z.number().index == 0,
        !y.nan(),
        y.number().index != 0,
    ensures
        z.over(y).number().index == 0,
{
    let f = Format::Single;
    let u = grid::units(f, y.number().index as nat);
    grid::lemma_units_increase(f, 0, y.number().index as nat);
    assert(grid::units(f, 0) == 0);
    assert(0 * pow2(149) == 0);
    number::lemma_round_zero(f, u);
}

/// The quotient of two magnitudes keeps the order of the dividends.
pub proof fn law_over_keeps_order(x: Single, y: Single, d: Single)
    requires
        Single::zero().at_most(x),
        x.at_most(y),
        !x.number().negative,
        !y.number().negative,
        Single::zero().less(d),
        is_finite(d),
    ensures
        x.over(d).at_most(y.over(d)),
{
    let f = Format::Single;
    let a = grid::units(f, x.number().index as nat);
    let b = grid::units(f, y.number().index as nat);
    let u = grid::units(f, d.number().index as nat);
    let p = pow2(149);
    grid::lemma_units_increase(f, 0, d.number().index as nat);
    grid::lemma_units_increase(f, x.number().index as nat, y.number().index as nat);
    assert((a * p) * u <= (b * p) * u) by (nonlinear_arith)
        requires
            a <= b,
    ;
    law_nearest_exists(f, a * p, u);
    law_nearest_exists(f, b * p, u);
    law_rounding_keeps_order(f, a * p, u, b * p, u);
}

/// A product with a value above zero keeps the order of magnitudes.
pub proof fn law_times_keeps_order(x: Single, y: Single, m: Single)
    requires
        x.at_most(y),
        !x.number().negative,
        !y.number().negative,
        is_finite(y),
        Single::zero().less(m),
        is_finite(m),
    ensures
        x.times(m).at_most(y.times(m)),
        !x.times(m).number().negative,
{
    let f = Format::Single;
    let a = grid::units(f, x.number().index as nat);
    let b = grid::units(f, y.number().index as nat);
    let u = grid::units(f, m.number().index as nat);
    let p = pow2(149);
    lemma_pow2_pos(149);
    grid::lemma_units_increase(f, x.number().index as nat, y.number().index as nat);
    assert((a * u) * p <= (b * u) * p) by (nonlinear_arith)
        requires
            a <= b,
    ;
    law_nearest_exists(f, a * u, p);
    law_nearest_exists(f, b * u, p);
    law_rounding_keeps_order(f, a * u, p, b * u, p);
}

/// A product with a value below zero turns the order of magnitudes.
pub proof fn law_times_turns_order(x: Single, y: Single, m: Single)
    requires
        x.at_most(y),
        !x.number().negative,
        !y.number().negative,
        is_finite(y),
        m.less(Single::zero()),
        is_finite(m),
    ensures
        y.times(m).at_most(x.times(m)),
        x.times(m).at_most(Single::zero()),
{
    let f = Format::Single;
    let a = grid::units(f, x.number().index as nat);
    let b = grid::units(f, y.number().index as nat);
    let u = grid::units(f, m.number().index as nat);
    let p = pow2(149);
    lemma_pow2_pos(149);
    grid::lemma_units_increase(f, x.number().index as nat, y.number().index as nat);
    assert((a * u) * p <= (b * u) * p) by (nonlinear_arith)
        requires
            a <= b,
    ;
    law_nearest_exists(f, a * u, p);
    law_nearest_exists(f, b * u, p);
    law_rounding_keeps_order(f, a * u, p, b * u, p);
}

/// Bits of the smallest value with a full significand.
pub const SMALLEST_NORMAL: u32 = 0x0080_0000;

/// A value with a full significand, as a significand and a power of two.
proof fn lemma_normal(k: nat) -> (s: (nat, nat))
    requires
        SMALLEST_NORMAL <= k < Format::Single.infinity(),
    ensures
        k == s.0 * Format::Single.binade() + s.1,
        grid::units(Format::Single, k) == s.1 * pow2(s.0),
        0x80_0000 <= s.1 < 0x100_0000,
{
    let f = Format::Single;
    let b = f.binade();
    let (e, r) = grid::lemma_split(f, k);
    assert(r >= b) by (nonlinear_arith)
        requires
            k == e * b + r,
            k >= b,
            e == 0 || b <= r,
    ;
    (e, r)
}

/// A value above zero, times more than one, grows.
pub proof fn law_product_grows(x: Single, g: Single)
    requires
        (Single { bits: SMALLEST_NORMAL }).at_most(x),
        is_finite(x),
        Single::one().less(g),
        is_finite(g),
    ensures
        x.less(x.times(g)),
{
    let f = Format::Single;
    let k = x.number().index as nat;
    let p = pow2(149);
    let (e, r) = lemma_normal(k);
    let one = 0x3f80_0000nat;
    let u = grid::units(f, g.number().index as nat);
    lemma_one_units();
    lemma2_to64();
    lemma_pow2_pos(149);
    lemma_pow2_adds(23, 126);
    // The next value after one.
    grid::lemma_units_at(f, 126, 0x80_0001);
    assert(126 * f.binade() + 0x80_0001 == one + 1);
    let q = pow2(126);
    assert(0x80_0001 * q == p + q) by (nonlinear_arith)
        requires
            p == 0x80_0000 * q,
    ;
    grid::lemma_units_increase(f, one + 1, g.number().index as nat);
    // The next value after x.
    grid::lemma_units_at(f, e, r + 1);
    assert(k + 1 == e * f.binade() + (r + 1));
    let w = pow2(e);
    let c = r * w;
    assert((r + 1) * w == c + w) by (nonlinear_arith)
        requires
            c == r * w,
    ;
    assert(c * u >= (c + w) * p) by (nonlinear_arith)
        requires
            c == r * w,
            r >= 0x80_0000,
            u >= p + q,
            p == 0x80_0000 * q,
            w >= 0,
            q >= 0,
    ;
    law_rounding_keeps_values(f, k + 1, p);
    assert(((c + w) * p) * p <= (c * u) * p) by (nonlinear_arith)
        requires
            c * u >= (c + w) * p,
            p > 0,
    ;
    law_rounding_keeps_order(f, (c + w) * p, p, c * u, p);
    law_nearest_exists(f, c * u, p);
    let m = grid::round_magnitude(f, c * u, p);
    assert(x.times(g).number() == (Number { negative: false, index: m as u64 }));
}

/// A value above zero, times less than one, shrinks.
pub proof fn law_product_shrinks(x: Single, g: Single)
    requires
        (Single { bits: SMALLEST_NORMAL }).less(x),
        is_finite(x),
        Single::zero().at_most(g),
        g.less(Single::one()),
    ensures
        x.times(g).less(x),
{
    let f = Format::Single;
    let k = x.number().index as nat;
    let p = pow2(149);
    let (e, r) = lemma_normal(k);
    let one = 0x3f80_0000nat;
    let u = grid::units(f, g.number().index as nat);
    lemma_one_units();
    lemma2_to64();
    lemma_pow2_pos(149);
    lemma_pow2_adds(24, 125);
    // The value before one.
    grid::lemma_units_at(f, 125, 0xff_ffff);
    assert(125 * f.binade() + 0xff_ffff == one - 1);
    let q = pow2(125);
    assert(0xff_ffff * q == p - q) by (nonlinear_arith)
        requires
            p == 0x100_0000 * q,
    ;
    grid::lemma_units_increase(f, g.number().index as nat, (one - 1) as nat);
    let w = pow2(e);
    let c = r * w;
    let n = c * u;
    // What is lost is at least half a step.
    assert(2 * n <= (2 * c) * p - r * (w * (2 * q))) by (nonlinear_arith)
        requires
            n == c * u,
            c == r * w,
            u <= p - q,
            c >= 0,
    ;
    law_nearest_exists(f, n, p);
    let j = grid::round_magnitude(f, n, p);
    lemma_shrinks(k, e, r, n, q, j);
    assert(x.times(g).number().index == j);
    if g.number().negative {
        assert(u == 0);
    }
}

proof fn lemma_shrinks(k: nat, e: nat, r: nat, n: nat, q: nat, j: nat)
    requires
        k == e * Format::Single.binade() + r,
        SMALLEST_NORMAL < k,
        0x80_0000 <= r < 0x100_0000,
        grid::units(Format::Single, k) == r * pow2(e),
        pow2(149) == 0x100_0000 * q,
        2 * n <= (2 * (r * pow2(e))) * pow2(149) - r * (pow2(e) * (2 * q)),
        q > 0,
        j == grid::round_magnitude(Format::Single, n, pow2(149)),
        grid::nearest(Format::Single, j, n, pow2(149)),
    ensures
        j < k,
{
    let f = Format::Single;
    let b = f.binade();
    let p = pow2(149);
    let w = pow2(e);
    let c = r * w;
    lemma_pow2_pos(e);
    if j >= k {
        let below = grid::units(f, (k - 1) as nat);
        grid::lemma_units_increase(f, (k - 1) as nat, (j - 1) as nat);
        grid::lemma_units_increase(f, k, j);
        let t = grid::units(f, (j - 1) as nat) + grid::units(f, j);
        assert(t * p <= 2 * n);
        assert((below + c) * p <= 2 * n) by (nonlinear_arith)
            requires
                t * p <= 2 * n,
                below + c <= t,
        ;
        if r > 0x80_0000 {
            grid::lemma_units_at(f, e, (r - 1) as nat);
            assert(k - 1 == e * b + (r - 1));
            assert((r - 1) * w == c - w) by (nonlinear_arith)
                requires
                    c == r * w,
            ;
            assert((2 * c - w) * p == (2 * c) * p - w * p) by (nonlinear_arith);
            assert(r * (w * (2 * q)) > w * p) by (nonlinear_arith)
                requires
                    r > 0x80_0000,
                    p == 0x100_0000 * q,
                    w > 0,
                    q > 0,
            ;
        } else {
            assert(e >= 1) by (nonlinear_arith)
                requires
                    k == e * b + r,
                    r == 0x80_0000,
                    k > 0x80_0000,
                    b > 0,
            ;
            let d = (e - 1) as nat;
            lemma_pow2_unfold(e);
            let v = pow2(d);
            grid::lemma_units_at(f, d, 0xff_ffff);
            assert(k - 1 == d * b + 0xff_ffff) by (nonlinear_arith)
                requires
                    k == e * b + 0x80_0000,
                    d == e - 1,
                    b == 0x80_0000,
            ;
            assert(0xff_ffff * v == c - v) by (nonlinear_arith)
                requires
                    c == 0x80_0000 * w,
                    w == 2 * v,
            ;
            assert((2 * c - v) * p == (2 * c) * p - v * p) by (nonlinear_arith);
            assert(r * (w * (2 * q)) > v * p) by (nonlinear_arith)
                requires
                    r == 0x80_0000,
                    p == 0x100_0000 * q,
                    w == 2 * v,
                    v > 0,
                    q > 0,
            ;
            lemma_pow2_pos(d);
        }
    }
}

/// How far a whole number below 2^24 has to move up to fill a significand.
proof fn lemma_lift(v: nat, j: nat) -> (t: nat)
    requires
        0 < v < pow2((24 - j) as nat),
        j <= 23,
    ensures
        t <= 23,
        pow2(23) <= v * pow2(t) < pow2(24),
    decreases 24 - j,
{
    lemma2_to64();
    lemma_pow2_pos(j);
    if j < 23 && v < pow2((23 - j) as nat) {
        lemma_lift(v, j + 1)
    } else {
        lemma_pow2_adds((24 - j) as nat, j);
        lemma_pow2_adds((23 - j) as nat, j);
        assert(v * pow2(j) < pow2((24 - j) as nat) * pow2(j)) by (nonlinear_arith)
            requires
                v < pow2((24 - j) as nat),
                pow2(j) > 0,
        ;
        assert(v * pow2(j) >= pow2((23 - j) as nat) * pow2(j)) by (nonlinear_arith)
            requires
                v >= pow2((23 - j) as nat),
                pow2(j) > 0,
        ;
        j
    }
}

/// A whole number below 2^24, scaled by a power of two, is a magnitude.
pub(crate) proof fn lemma_magnitude(v: nat, s: nat) -> (k: nat)
    requires
        v < 0x100_0000,
        23 <= s <= 149,
    ensures
        grid::units(Format::Single, k) == v * pow2(s),
        k < Format::Single.infinity(),
        v == 0 <==> k == 0,
{
    let f = Format::Single;
    lemma2_to64();
    if v == 0 {
        assert(grid::units(f, 0) == 0);
        assert(0 * pow2(s) == 0);
        0
    } else {
        let t = lemma_lift(v, 0);
        let r = v * pow2(t);
        let e = (s - t) as nat;
        let k = e * f.binade() + r;
        grid::lemma_units_at(f, e, r);
        lemma_pow2_adds(t, e);
        assert(r * pow2(e) == v * pow2(s)) by (nonlinear_arith)
            requires
                r == v * pow2(t),
                pow2(s) == pow2(t) * pow2(e),
        ;
        assert(k < f.infinity()) by (nonlinear_arith)
            requires
                k == e * f.binade() + r,
                e <= 149,
                r < 0x100_0000,
                f.binade() == 0x80_0000,
                f.infinity() == 255 * 0x80_0000,
        ;
        k
    }
}

/// Whole numbers below 2^24 are held exactly: their whole part gives them back.
pub proof fn law_small_integers_are_exact(v: u64)
    requires
        v < 0x100_0000,
    ensures
        is_finite(Single::from_u64(v)),
        !Single::from_u64(v).number().negative,
        grid::units(Format::Single, Single::from_u64(v).number().index as nat) == v * pow2(149),
        Single::from_u64(v).trunc_u64() == v,
{
    let f = Format::Single;
    let k = lemma_magnitude(v as nat, 149);
    law_rounding_keeps_values(f, k, 1);
    assert(grid::units(f, k) * 1 == grid::units(f, k));
    assert(v as nat * pow2(149) * 1 == v as nat * pow2(149));
    lemma_pow2_pos(149);
    lemma_div_multiples_vanish(v as int, pow2(149) as int);
    assert(pow2(149) * v == v * pow2(149)) by (nonlinear_arith);
}

} // verus!
