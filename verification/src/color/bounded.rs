//! How large a color can grow on its way through the adjustments.

use crate::color::adjustments;
use crate::color::adjustments::{Powers, Taken};
use crate::color::drift::{grain, quarter, units_of, whole, within};
use crate::color::drift::{lemma_clamped, lemma_control, lemma_ends, lemma_measures, lemma_order};
use crate::color::drift::{lemma_minus, lemma_multiplied, lemma_over, lemma_plus, lemma_scaled};
use crate::color::laws as color_laws;
use crate::color::lut::identity::close;
use crate::ieee::grid;
use crate::ieee::grid::Format;
use crate::ieee::laws;
use crate::ieee::number;
use crate::ieee::single::Single;
use vstd::arithmetic::power2::*;
use vstd::prelude::*;

verus! {

/// The luma weights, which make one together.
pub(crate) proof fn lemma_weights()
    ensures
        ({
            let r = units_of(Single { bits: adjustments::LUMA_RED });
            let g = units_of(Single { bits: adjustments::LUMA_GREEN });
            let b = units_of(Single { bits: adjustments::LUMA_BLUE });
            &&& r > 0 && g > 0 && b > 0
            &&& r + g + b == whole()
            &&& 16 * r >= whole() && 16 * g >= whole() && 16 * b >= whole()
            &&& within(Single { bits: adjustments::LUMA_RED }, 0, 1)
            &&& within(Single { bits: adjustments::LUMA_GREEN }, 0, 3)
            &&& within(Single { bits: adjustments::LUMA_BLUE }, 0, 1)
        }),
{
    reveal(units_of);
    let h = pow2(122);
    lemma2_to64();
    lemma_measures();
    lemma_pow2_pos(122);
    lemma_pow2_unfold(123);
    lemma_pow2_unfold(124);
    lemma_pow2_unfold(125);
    assert(0x3e59_b3d0nat / 0x80_0000nat == 124 && 0x3e59_b3d0nat % 0x80_0000nat == 0x59_b3d0);
    assert(0x3f37_1759nat / 0x80_0000nat == 126 && 0x3f37_1759nat % 0x80_0000nat == 0x37_1759);
    assert(0x3d93_dd98nat / 0x80_0000nat == 123 && 0x3d93_dd98nat % 0x80_0000nat == 0x13_dd98);
    assert((0x80_0000 + 0x59_b3d0) * (2 * h) == 28534688 * h) by (nonlinear_arith);
    assert((0x80_0000 + 0x37_1759) * (2 * (2 * (2 * h))) == 95992520 * h) by (nonlinear_arith);
    assert(grid::units(Format::Single, 0x3e59_b3d0) == 28534688 * h);
    assert(grid::units(Format::Single, 0x3f37_1759) == 95992520 * h);
    assert(grid::units(Format::Single, 0x3d93_dd98) == 9690520 * h);
    assert(grain() == 2 * h);
}

/// 0.25, 0.5, 0.75, 2.0 and 3.0.
pub(crate) proof fn lemma_fractions()
    ensures
        units_of(Single { bits: 0x3e80_0000 }) == quarter(),
        units_of(Single { bits: 0x3f00_0000 }) == 2 * quarter(),
        units_of(Single { bits: 0x3f40_0000 }) == 3 * quarter(),
        units_of(Single { bits: 0x4000_0000 }) == 8 * quarter(),
        units_of(Single { bits: 0x4040_0000 }) == 12 * quarter(),
{
    reveal(units_of);
    lemma2_to64();
    lemma_measures();
    color_laws::lemma_constants();
    lemma_pow2_adds(23, 124);
    lemma_pow2_unfold(125);
    assert(0x3e80_0000nat / 0x80_0000nat == 125 && 0x3e80_0000nat % 0x80_0000nat == 0);
    assert(0x3f00_0000nat / 0x80_0000nat == 126 && 0x3f00_0000nat % 0x80_0000nat == 0);
    assert(0x3f40_0000nat / 0x80_0000nat == 126 && 0x3f40_0000nat % 0x80_0000nat == 0x40_0000);
    let h = pow2(124);
    assert(0x80_0000 * (2 * h) == 2 * (0x80_0000 * h)) by (nonlinear_arith);
    assert((0x80_0000 + 0x40_0000) * (2 * h) == 3 * (0x80_0000 * h)) by (nonlinear_arith);
}

/// The sum that the luma rounds.
pub open spec fn mixed(c: [Single; 3]) -> int {
    units_of(c[0]) * units_of(Single { bits: adjustments::LUMA_RED }) + units_of(c[1]) * units_of(
        Single { bits: adjustments::LUMA_GREEN },
    ) + units_of(c[2]) * units_of(Single { bits: adjustments::LUMA_BLUE })
}

/// Every channel is from `-a` to `a` quarters.
pub open spec fn all_within(c: [Single; 3], a: int) -> bool {
    within(c[0], -a, a) && within(c[1], -a, a) && within(c[2], -a, a)
}

/// A mean of values lies between them.
pub(crate) proof fn lemma_mean(x: int, y: int, z: int, r: int, g: int, b: int, low: int, high: int)
    requires
        r >= 0,
        g >= 0,
        b >= 0,
        low <= x <= high,
        low <= y <= high,
        low <= z <= high,
    ensures
        low * (r + g + b) <= x * r + y * g + z * b <= high * (r + g + b),
{
    assert(low * r <= x * r <= high * r) by (nonlinear_arith)
        requires
            low <= x <= high,
            r >= 0,
    ;
    assert(low * g <= y * g <= high * g) by (nonlinear_arith)
        requires
            low <= y <= high,
            g >= 0,
    ;
    assert(low * b <= z * b <= high * b) by (nonlinear_arith)
        requires
            low <= z <= high,
            b >= 0,
    ;
    assert(low * (r + g + b) == low * r + low * g + low * b) by (nonlinear_arith);
    assert(high * (r + g + b) == high * r + high * g + high * b) by (nonlinear_arith);
}

/// The luma is no larger than the channels, but for rounding.
pub(crate) proof fn lemma_luma(c: [Single; 3], a: int)
    requires
        all_within(c, a),
        0 <= a < 0x2_0000,
    ensures
        within(adjustments::luma(c), -(a + 1), a + 1),
        close(
            units_of(adjustments::luma(c)) * whole(),
            mixed(c),
            ((4 * a + 12) * grain()) * whole(),
        ),
        close(
            2 * (units_of(adjustments::luma(c)) * whole()),
            2 * mixed(c),
            ((7 * a + 22) * grain()) * whole(),
        ),
{
    let red = Single { bits: adjustments::LUMA_RED };
    let green = Single { bits: adjustments::LUMA_GREEN };
    let blue = Single { bits: adjustments::LUMA_BLUE };
    let (q, g, p) = (quarter(), grain(), whole());
    lemma_measures();
    lemma_weights();
    let m = a / 4 + 1;
    let n = 3 * a / 4 + 1;
    assert(-a * 1 == -a && a * 1 == a && -a * 3 == -(3 * a));
    lemma_scaled(c[0], red, -a, a, 1, -m, m, m);
    lemma_scaled(c[1], green, -a, a, 3, -n, n, n);
    lemma_scaled(c[2], blue, -a, a, 1, -m, m, m);
    let (x, y, z) = (c[0].times(red), c[1].times(green), c[2].times(blue));
    assert(-m * q == -(m * q) && -n * q == -(n * q)) by (nonlinear_arith);
    assert((m + n) * q == m * q + n * q) by (nonlinear_arith);
    assert(-(m + n) * q == -((m + n) * q)) by (nonlinear_arith);
    lemma_plus(x, y, -(m + n), m + n, m + n);
    let s = x.plus(y);
    assert((2 * m + n) * q == (m + n) * q + m * q) by (nonlinear_arith);
    assert(-(2 * m + n) * q == -((2 * m + n) * q)) by (nonlinear_arith);
    lemma_plus(s, z, -(2 * m + n), 2 * m + n, 2 * m + n);
    let l = units_of(s.plus(z));
    let (ux, uy, uz, us) = (units_of(x), units_of(y), units_of(z), units_of(s));
    let e = (m + n) * g + (2 * m + n) * g;
    assert(-e <= l - (ux + uy + uz) <= e);
    assert(-(e * p) <= l * p - (ux * p + uy * p + uz * p) <= e * p) by (nonlinear_arith)
        requires
            -e <= l - (ux + uy + uz) <= e,
            p > 0,
    ;
    let all = ((4 * a + 12) * g) * p;
    assert(e * p + ((m + 1) * g) * p + ((n + 1) * g) * p + ((m + 1) * g) * p <= all) by (nonlinear_arith)
        requires
            e == (m + n) * g + (2 * m + n) * g,
            all == ((4 * a + 12) * g) * p,
            5 * m + 3 * n + 3 <= 4 * a + 12,
            g > 0,
            p > 0,
    ;
    let half = ((7 * a + 22) * g) * p;
    assert(2 * (e * p) + 2 * (((m + 1) * g) * p) + 2 * (((n + 1) * g) * p) + 2 * (((m + 1) * g) * p)
        <= half) by (nonlinear_arith)
        requires
            e == (m + n) * g + (2 * m + n) * g,
            half == ((7 * a + 22) * g) * p,
            2 * (5 * m + 3 * n + 3) <= 7 * a + 22,
            g > 0,
            p > 0,
    ;
    // The exact mean lies between the channels.
    let (r, gr, b) = (units_of(red), units_of(green), units_of(blue));
    let t = mixed(c);
    assert(-a * q == -(a * q)) by (nonlinear_arith);
    lemma_mean(units_of(c[0]), units_of(c[1]), units_of(c[2]), r, gr, b, -(a * q), a * q);
    assert((4 * a + 12) * g <= q) by (nonlinear_arith)
        requires
            a < 0x2_0000,
            q == 0x100_0000 * g,
            g > 0,
    ;
    assert(-((a + 1) * q) <= l <= (a + 1) * q) by (nonlinear_arith)
        requires
            -(a * q) * p <= t <= (a * q) * p,
            t - ((4 * a + 12) * g) * p <= l * p <= t + ((4 * a + 12) * g) * p,
            (4 * a + 12) * g <= q,
            p > 0,
    {
        assert(((4 * a + 12) * g) * p <= q * p);
        assert((a * q) * p + q * p == ((a + 1) * q) * p);
        assert(-(a * q) * p - q * p == -((a + 1) * q) * p);
    }
    assert(-(a + 1) * q == -((a + 1) * q)) by (nonlinear_arith);
}

/// A value that is a number, held between 0 and 1.
pub(crate) proof fn lemma_clamp_any(x: Single)
    requires
        !x.nan(),
    ensures
        within(x.clamped(Single::zero(), Single::one()), 0, 4),
{
    lemma_ends();
    if laws::is_finite(x) {
        lemma_measures();
        assert(0 * grain() == 0);
        lemma_clamped(x, x, 0);
    }
}

/// The curve of the smoothstep over a value from 0 to 1.
pub open spec fn curve(t: Single) -> Single {
    t.times(t).times(Single { bits: adjustments::THREE }.minus(Single { bits: adjustments::TWO }.times(t)))
}

/// The curve is off by no more than 49 grains from the cube that it rounds.
pub(crate) proof fn lemma_curve(t: Single)
    requires
        within(t, 0, 4),
    ensures
        ({
            let (u, p, g) = (units_of(t), whole(), grain());
            &&& within(curve(t), 0, 5)
            &&& units_of(curve(t)) <= p + 49 * g
            &&& close(
                units_of(curve(t)) * (p * p),
                (u * u) * (3 * p - 2 * u),
                (49 * g) * (p * p),
            )
        }),
{
    let two = Single { bits: adjustments::TWO };
    let three = Single { bits: adjustments::THREE };
    let (u, p, q, g) = (units_of(t), whole(), quarter(), grain());
    lemma_measures();
    lemma_fractions();
    assert(0 * q == 0 && 0 * p == 0);
    lemma_scaled(t, t, 0, 4, 4, 0, 4, 4);
    lemma_scaled(two, t, 0, 8, 4, 0, 8, 8);
    let d = two.times(t);
    let (a, e) = (units_of(t.times(t)), units_of(d));
    assert(close(e, 2 * u, 9 * g)) by {
        assert(e - 2 * u <= 9 * g) by (nonlinear_arith)
            requires
                e * p <= (8 * q) * u + (9 * g) * p,
                p == 4 * q,
                p > 0,
        ;
        assert(2 * u - e <= 9 * g) by (nonlinear_arith)
            requires
                e * p >= (8 * q) * u - (9 * g) * p,
                p == 4 * q,
                p > 0,
        ;
    }
    lemma_minus(three, d, 4, 12, 12);
    let rest = three.minus(d);
    let b = units_of(rest);
    let w = 3 * p - 2 * u;
    assert(-(21 * g) <= b - w <= 21 * g);
    lemma_scaled(t.times(t), rest, 0, 4, 12, 0, 12, 12);
    let r = units_of(curve(t));
    // r p p - u u w = (r p - a b) p + (a p - u u) b + u u (b - w)
    let (m, n) = (r * p - a * b, a * p - u * u);
    assert(-((13 * g) * (p * p)) <= m * p <= (13 * g) * (p * p)) by (nonlinear_arith)
        requires
            -((13 * g) * p) <= m <= (13 * g) * p,
            p > 0,
    ;
    assert(-((15 * g) * (p * p)) <= n * b <= (15 * g) * (p * p)) by (nonlinear_arith)
        requires
            -((5 * g) * p) <= n <= (5 * g) * p,
            0 <= b <= 3 * p,
            p > 0,
            g > 0,
    {
        assert(-(((5 * g) * p) * b) <= n * b <= ((5 * g) * p) * b);
        assert(((5 * g) * p) * b <= ((5 * g) * p) * (3 * p));
        assert(((5 * g) * p) * (3 * p) == (15 * g) * (p * p));
    }
    assert(0 <= u * u <= p * p) by (nonlinear_arith)
        requires
            0 <= u <= p,
    ;
    assert(-((21 * g) * (p * p)) <= (u * u) * (b - w) <= (21 * g) * (p * p)) by (nonlinear_arith)
        requires
            0 <= u * u <= p * p,
            -(21 * g) <= b - w <= 21 * g,
            g > 0,
    {
        assert(-((u * u) * (21 * g)) <= (u * u) * (b - w) <= (u * u) * (21 * g));
        assert((u * u) * (21 * g) <= (p * p) * (21 * g));
    }
    let v = u * u;
    assert((r * p - a * b) * p == r * (p * p) - (a * b) * p) by (nonlinear_arith);
    assert((a * p - v) * b == (a * p) * b - v * b) by (nonlinear_arith);
    assert((a * b) * p == (a * p) * b) by (nonlinear_arith);
    assert(v * (b - w) == v * b - v * w) by (nonlinear_arith);
    assert((13 * g) * (p * p) + (15 * g) * (p * p) + (21 * g) * (p * p) == (49 * g) * (p * p))
        by (nonlinear_arith);
    // The cube is no more than one.
    assert((u * u) * w <= p * (p * p)) by (nonlinear_arith)
        requires
            0 <= u <= p,
            w == 3 * p - 2 * u,
    {
        assert(p * (p * p) - (u * u) * (3 * p - 2 * u) == ((p - u) * (p - u)) * (p + 2 * u));
        assert((p - u) * (p - u) >= 0);
        assert(((p - u) * (p - u)) * (p + 2 * u) >= 0);
    }
    assert(r <= p + 49 * g) by (nonlinear_arith)
        requires
            r * (p * p) <= p * (p * p) + (49 * g) * (p * p),
            p > 0,
    ;
}

/// The smoothstep between two edges, over a value whose place between them is a
/// number.
pub(crate) proof fn lemma_ramp(edge0: Single, edge1: Single, x: Single)
    requires
        !x.minus(edge0).over(edge1.minus(edge0)).nan(),
    ensures
        within(adjustments::smoothstep(edge0, edge1, x), 0, 5),
{
    let ratio = x.minus(edge0).over(edge1.minus(edge0));
    lemma_clamp_any(ratio);
    lemma_curve(ratio.clamped(Single::zero(), Single::one()));
}

/// The difference of two edges that are some quarters apart.
pub(crate) proof fn lemma_edges(edge0: Single, edge1: Single, a: int, b: int)
    requires
        within(edge0, a, a),
        within(edge1, b, b),
        0 <= a < b <= 4,
    ensures
        within(edge1.minus(edge0), b - a, b - a),
{
    let q = quarter();
    lemma_measures();
    assert((b - a) * q == b * q - a * q) by (nonlinear_arith);
    lemma_minus(edge1, edge0, b - a, b - a, 4);
}

/// The edges of the four bands.
pub open spec fn band_edges(from: Single, to: Single, a: int, b: int) -> bool {
    &&& within(from, a, a)
    &&& within(to, b, b)
    &&& 0 <= a <= 3
    &&& a < b <= 4
}

/// Where a luma stands between the edges of a band.
pub(crate) proof fn lemma_place(from: Single, to: Single, a: int, b: int, x: Single, h: int)
    requires
        band_edges(from, to, a, b),
        within(x, -h, h),
        0 <= h < 0x2_0000,
    ensures
        ({
            let z = x.minus(from);
            let r = z.over(to.minus(from));
            let d = units_of(to.minus(from));
            &&& within(z, -(h + 3), h + 3)
            &&& close(units_of(z), units_of(x) - units_of(from), (h + 3) * grain())
            &&& within(r, -(4 * h + 12), 4 * h + 12)
            &&& close(units_of(r) * d, units_of(z) * whole(), ((4 * h + 13) * grain()) * d)
            &&& d == (b - a) * quarter()
        }),
{
    let (q, p) = (quarter(), whole());
    lemma_measures();
    lemma_edges(from, to, a, b);
    assert(-h * q == -(h * q) && -(h + 3) * q == -((h + 3) * q)) by (nonlinear_arith);
    assert(0 <= a * q <= 3 * q) by (nonlinear_arith)
        requires
            0 <= a <= 3,
            q > 0,
    ;
    assert((h + 3) * q == h * q + 3 * q) by (nonlinear_arith);
    lemma_minus(x, from, -(h + 3), h + 3, h + 3);
    let z = units_of(x.minus(from));
    let d = units_of(to.minus(from));
    let m = 4 * h + 12;
    assert(d >= q) by (nonlinear_arith)
        requires
            d == (b - a) * q,
            b - a >= 1,
            q > 0,
    ;
    assert(-((m * q) * d) <= z * p <= (m * q) * d) by (nonlinear_arith)
        requires
            -((h + 3) * q) <= z <= (h + 3) * q,
            p == 4 * q,
            d >= q,
            m == 4 * (h + 3),
            h >= 0,
            q > 0,
    {
        assert(-(((h + 3) * q) * p) <= z * p <= ((h + 3) * q) * p);
        assert(((h + 3) * q) * p == (m * q) * q);
        assert((m * q) * q <= (m * q) * d);
    }
    assert(-m * q == -(m * q) && (-m * q) * d == -((m * q) * d)) by (nonlinear_arith);
    lemma_over(x.minus(from), to.minus(from), -m, m, m);
}

/// How much of the way a band moves a channel: half at most, but for rounding.
pub open spec fn band_weight(c: [Single; 3], amount: Single, from: Single, to: Single, dark: bool) -> Single {
    let ramp = adjustments::smoothstep(from, to, adjustments::luma(c));
    let mask = if dark {
        Single::one().minus(ramp)
    } else {
        ramp
    };
    amount.magnitude().times(mask).times(Single { bits: adjustments::TONAL_STRENGTH })
}

pub(crate) proof fn lemma_magnitude(v: Single)
    requires
        within(v, -4, 4),
    ensures
        within(v.magnitude(), 0, 4),
        units_of(v.magnitude()) == if units_of(v) < 0 { -units_of(v) } else { units_of(v) },
{
    reveal(units_of);
    lemma_measures();
    assert(v.magnitude().number() == (number::Number { negative: false, index: v.number().index }));
    assert(grid::units(Format::Single, 0) == 0);
}

/// A mask times an amount, times a half.
pub(crate) proof fn lemma_weight(mask: Single, amount: Single)
    requires
        within(mask, -1, 5),
        -(53 * grain()) <= units_of(mask) <= whole() + 53 * grain(),
        within(amount, -4, 4),
    ensures
        ({
            let w = amount.magnitude().times(mask);
            let h = w.times(Single { bits: adjustments::TONAL_STRENGTH });
            &&& within(w, -5, 5)
            &&& close(
                units_of(w) * whole(),
                units_of(amount.magnitude()) * units_of(mask),
                (6 * grain()) * whole(),
            )
            &&& within(h, -3, 3)
            &&& close(2 * units_of(h), units_of(w), 8 * grain())
            &&& -(40 * grain()) <= units_of(h) <= 2 * quarter() + 40 * grain()
        }),
{
    let half = Single { bits: adjustments::TONAL_STRENGTH };
    let (q, p, g) = (quarter(), whole(), grain());
    lemma_measures();
    lemma_fractions();
    lemma_magnitude(amount);
    let a = amount.magnitude();
    lemma_multiplied(a, mask, 4, 5, 5);
    let w = a.times(mask);
    lemma_multiplied(w, half, 5, 2, 3);
    let h = w.times(half);
    let (ua, um, uw, uh) = (units_of(a), units_of(mask), units_of(w), units_of(h));
    assert(2 * uh - uw <= 8 * g && uw - 2 * uh <= 8 * g) by {
        assert(2 * uh - uw <= 8 * g) by (nonlinear_arith)
            requires
                uh * p <= uw * (2 * q) + (4 * g) * p,
                p == 4 * q,
                p > 0,
        ;
        assert(uw - 2 * uh <= 8 * g) by (nonlinear_arith)
            requires
                uh * p >= uw * (2 * q) - (4 * g) * p,
                p == 4 * q,
                p > 0,
        ;
    }
    assert(-((53 * g) * p) <= ua * um <= (p + 53 * g) * p) by (nonlinear_arith)
        requires
            0 <= ua <= p,
            -(53 * g) <= um <= p + 53 * g,
            g > 0,
    {
        assert(ua * um <= ua * (p + 53 * g));
        assert(ua * (p + 53 * g) <= p * (p + 53 * g));
        assert(ua * um >= ua * -(53 * g));
        assert(ua * -(53 * g) >= p * -(53 * g));
    }
    assert(uw <= p + 59 * g) by (nonlinear_arith)
        requires
            uw * p <= (p + 53 * g) * p + (6 * g) * p,
            p > 0,
    ;
    assert(uw >= -(59 * g)) by (nonlinear_arith)
        requires
            uw * p >= -((53 * g) * p) - (6 * g) * p,
            p > 0,
    ;
}

/// The weight of a band, and the color that it makes.
pub(crate) proof fn lemma_band(
    c: [Single; 3],
    amount: Single,
    from: Single,
    to: Single,
    dark: bool,
    a: int,
    b: int,
    h: int,
)
    requires
        band_edges(from, to, a, b),
        all_within(c, h),
        within(amount, -4, 4),
        4 <= h < 0x1_0000,
    ensures
        all_within(adjustments::with_band(c, amount, from, to, dark), 2 * h + 4),
{
    let q = quarter();
    let l = adjustments::luma(c);
    let one = Single::one();
    lemma_measures();
    lemma_ends();
    lemma_luma(c, h);
    lemma_place(from, to, a, b, l, h + 1);
    lemma_ramp(from, to, l);
    let ramp = adjustments::smoothstep(from, to, l);
    let t = l.minus(from).over(to.minus(from)).clamped(Single::zero(), one);
    lemma_clamp_any(l.minus(from).over(to.minus(from)));
    lemma_curve(t);
    lemma_minus(one, ramp, -1, 4, 4);
    let mask = if dark {
        one.minus(ramp)
    } else {
        ramp
    };
    lemma_weight(mask, amount);
    let w = band_weight(c, amount, from, to, dark);
    let target = if Single::zero().less(amount) {
        one
    } else {
        Single::zero()
    };
    lemma_toward(c[0], target, w, h);
    lemma_toward(c[1], target, w, h);
    lemma_toward(c[2], target, w, h);
    lemma_widen(c[0], h, 2 * h + 4);
    lemma_widen(c[1], h, 2 * h + 4);
    lemma_widen(c[2], h, 2 * h + 4);
}

/// A bound may be taken larger.
pub(crate) proof fn lemma_widen(x: Single, a: int, b: int)
    requires
        within(x, -a, a),
        a <= b,
    ensures
        within(x, -b, b),
{
    let q = quarter();
    lemma_measures();
    assert(a * q <= b * q) by (nonlinear_arith)
        requires
            a <= b,
            q > 0,
    ;
    assert(-a * q == -(a * q) && -b * q == -(b * q)) by (nonlinear_arith);
}

/// A channel moved toward a target by no more than three quarters of the way.
proof fn lemma_toward(v: Single, target: Single, w: Single, a: int)
    requires
        within(v, -a, a),
        within(target, 0, 4) || within(target, 0, 0) || within(target, 4, 4),
        within(w, -3, 3),
        4 <= a < 0x2_0000,
    ensures
        within(adjustments::toward(v, target, w), -(2 * a + 4), 2 * a + 4),
{
    let q = quarter();
    let n = a + 4;
    lemma_measures();
    assert(0 * q == 0);
    assert(-a * q == -(a * q) && -n * q == -(n * q) && n * q == a * q + 4 * q) by (nonlinear_arith)
        requires
            n == a + 4,
    ;
    lemma_minus(target, v, -n, n, n);
    let t = target.minus(v);
    lemma_multiplied(t, w, n, 3, n);
    let m = 2 * a + 4;
    assert(-m * q == -(m * q) && m * q == a * q + n * q) by (nonlinear_arith)
        requires
            m == a + n,
    ;
    lemma_plus(v, t.times(w), -m, m, m);
}

/// A channel times a gain from 0 to 2.
proof fn lemma_lift(v: Single, gain: Single, a: int)
    requires
        within(v, -a, a),
        within(gain, 0, 8),
        0 <= a < 0x4_0000,
    ensures
        within(v.times(gain), -(2 * a), 2 * a),
{
    lemma_scaled(v, gain, -a, a, 8, -(2 * a), 2 * a, 2 * a);
}

/// One plus a control from -1 to 1.
pub(crate) proof fn lemma_gain(v: Single)
    requires
        within(v, -4, 4),
    ensures
        within(Single::one().plus(v), 0, 8),
{
    lemma_ends();
    lemma_measures();
    assert(0 * quarter() == 0);
    lemma_plus(Single::one(), v, 0, 8, 8);
}

/// The gain of a luminance from -1 to 1.
pub(crate) proof fn lemma_luminance_gain(luminance: Single)
    requires
        within(luminance, -4, 4),
    ensures
        within(
            Single::one().plus(luminance.times(Single { bits: adjustments::LUMINANCE_GAIN })),
            2,
            6,
        ),
{
    let half = Single { bits: adjustments::LUMINANCE_GAIN };
    lemma_ends();
    lemma_measures();
    lemma_fractions();
    lemma_multiplied(luminance, half, 4, 2, 2);
    lemma_plus(Single::one(), luminance.times(half), 2, 6, 6);
}

proof fn lemma_pivot(v: Single, gain: Single, a: int)
    requires
        within(v, -a, a),
        within(gain, 0, 8),
        0 <= a < 0x2_0000,
    ensures
        within(adjustments::pivoted(v, gain), -(2 * a + 6), 2 * a + 6),
{
    let q = quarter();
    let half = Single { bits: adjustments::CONTRAST_PIVOT };
    lemma_measures();
    lemma_fractions();
    let n = a + 2;
    assert(-a * q == -(a * q) && -n * q == -(n * q) && n * q == a * q + 2 * q) by (nonlinear_arith)
        requires
            n == a + 2,
    ;
    lemma_minus(v, half, -n, n, n);
    let t = v.minus(half);
    lemma_lift(t, gain, n);
    let m = 2 * a + 6;
    assert(-m * q == -(m * q) && m * q == (2 * n) * q + 2 * q && -(2 * n) * q == -((2 * n) * q))
        by (nonlinear_arith)
        requires
            m == 2 * n + 2,
    ;
    lemma_plus(t.times(gain), half, -m, m, m);
}

/// A channel spread away from a luma by a gain from 0 to 2.
proof fn lemma_spread(v: Single, l: Single, gain: Single, a: int)
    requires
        within(v, -a, a),
        within(l, -(a + 1), a + 1),
        within(gain, 0, 8),
        0 <= a < 0x1_0000,
    ensures
        within(adjustments::spread(v, l, gain), -(5 * a + 3), 5 * a + 3),
{
    let q = quarter();
    lemma_measures();
    let n = 2 * a + 1;
    assert(-a * q == -(a * q) && -(a + 1) * q == -((a + 1) * q)) by (nonlinear_arith);
    assert(-n * q == -(n * q) && n * q == a * q + (a + 1) * q) by (nonlinear_arith)
        requires
            n == a + (a + 1),
    ;
    lemma_minus(v, l, -n, n, n);
    let t = v.minus(l);
    lemma_lift(t, gain, n);
    let m = 5 * a + 3;
    assert(-m * q == -(m * q) && m * q == (2 * n) * q + (a + 1) * q && -(2 * n) * q == -((2 * n) * q))
        by (nonlinear_arith)
        requires
            m == 2 * n + (a + 1),
    ;
    lemma_plus(l, t.times(gain), -m, m, m);
}

/// The parts of the white balance.
pub(crate) proof fn lemma_tilts(temperature: Single, tint: Single)
    requires
        within(temperature, -4, 4),
        within(tint, -4, 4),
    ensures
        ({
            let strength = Single { bits: adjustments::WB_STRENGTH };
            let g = tint.times(strength);
            &&& within(temperature.times(strength), -1, 1)
            &&& within(g, -1, 1)
            &&& within(g.times(Single { bits: adjustments::HALF }), -1, 1)
        }),
{
    reveal(units_of);
    let f = Format::Single;
    let strength = Single { bits: adjustments::WB_STRENGTH };
    lemma_measures();
    lemma_fractions();
    grid::lemma_units_increase(f, 0, 0x3e4c_cccd);
    grid::lemma_units_increase(f, 0x3e4c_cccd, 0x3e80_0000);
    assert(grid::units(f, 0) == 0);
    assert(units_of(Single { bits: 0x3e80_0000 }) == grid::units(f, 0x3e80_0000));
    assert(units_of(strength) == grid::units(f, 0x3e4c_cccd));
    lemma_multiplied(temperature, strength, 4, 1, 1);
    lemma_multiplied(tint, strength, 4, 1, 1);
    lemma_multiplied(tint.times(strength), Single { bits: adjustments::HALF }, 1, 2, 1);
}

/// A shift by no more than a quarter.
proof fn lemma_shift(v: Single, d: Single, a: int)
    requires
        within(v, -a, a),
        within(d, -1, 1),
        0 <= a < 0x2_0000,
    ensures
        within(v.plus(d), -(a + 1), a + 1),
        within(v.minus(d), -(a + 1), a + 1),
{
    let q = quarter();
    let n = a + 1;
    lemma_measures();
    assert(-a * q == -(a * q) && -n * q == -(n * q) && n * q == a * q + q) by (nonlinear_arith)
        requires
            n == a + 1,
    ;
    lemma_plus(v, d, -n, n, n);
    lemma_minus(v, d, -n, n, n);
}

/// The gain of a vibrance.
pub(crate) proof fn lemma_vibrance_gain(c: [Single; 3], vibrance: Single, a: int)
    requires
        all_within(c, a),
        within(vibrance, -4, 4),
        0 <= a < 0x2_0000,
    ensures
        within(adjustments::vividness(c), 0, 4),
        within(Single::one().minus(adjustments::vividness(c)), 0, 4),
        within(vibrance.times(Single::one().minus(adjustments::vividness(c))), -4, 4),
        within(adjustments::vibrance_gain(c, vibrance), 0, 8),
{
    let (q, one) = (quarter(), Single::one());
    let most = c[0].greater_of(c[1]).greater_of(c[2]);
    let least = c[0].lesser_of(c[1]).lesser_of(c[2]);
    lemma_measures();
    lemma_ends();
    assert(within(most, -a, a) && within(least, -a, a));
    let n = 2 * a;
    assert(-a * q == -(a * q) && -n * q == -(n * q) && n * q == 2 * (a * q)) by (nonlinear_arith)
        requires
            n == 2 * a,
    ;
    lemma_minus(most, least, -n, n, n);
    lemma_clamp_any(most.minus(least));
    let vivid = adjustments::vividness(c);
    assert(0 * q == 0);
    lemma_minus(one, vivid, 0, 4, 4);
    lemma_multiplied(vibrance, one.minus(vivid), 4, 4, 4);
    lemma_gain(vibrance.times(one.minus(vivid)));
}

/// The gain of a vignette.
pub(crate) proof fn lemma_vignette_gain(vignette: Single, reach: Single, corner: Single)
    requires
        within(vignette, -4, 4),
        !reach.over(corner).nan(),
    ensures
        ({
            let one = Single::one();
            let mask = adjustments::smoothstep(
                Single { bits: adjustments::VIGNETTE_OUTER },
                Single { bits: adjustments::VIGNETTE_INNER },
                reach.over(corner),
            );
            within(one.plus(vignette.times(one.minus(mask))), 0, 8)
        }),
{
    reveal(units_of);
    let f = Format::Single;
    let one = Single::one();
    let inner = Single { bits: adjustments::VIGNETTE_INNER };
    let x = reach.over(corner);
    lemma_measures();
    lemma_ends();
    // The span of the mask is neither empty nor endless.
    let span = inner.minus(one);
    let k = 0x3e99_999anat;
    grid::lemma_units_increase(f, k, 0x3f80_0000);
    lemma_fractions();
    grid::lemma_units_increase(f, 0x3e80_0000, k);
    grid::lemma_units_increase(f, k, 0x3f00_0000);
    assert(units_of(inner) == grid::units(f, k));
    assert(units_of(Single { bits: 0x3e80_0000 }) == grid::units(f, 0x3e80_0000));
    assert(units_of(Single { bits: 0x3f00_0000 }) == grid::units(f, 0x3f00_0000));
    lemma_minus(inner, one, -3, -2, 3);
    assert(grid::units(f, 0) == 0);
    assert(span.number().index != 0);
    // So the place is a number wherever the pixel is.
    let z = x.minus(one);
    assert(!z.nan()) by {
        let t = units_of(x) - whole();
        if t < 0 {
            laws::law_nearest_exists(f, (-t) as nat, 1);
        } else {
            laws::law_nearest_exists(f, t as nat, 1);
        }
    }
    assert(!z.over(span).nan()) by {
        let d = grid::units(f, span.number().index as nat);
        grid::lemma_units_increase(f, 0, span.number().index as nat);
        laws::law_nearest_exists(f, grid::units(f, z.number().index as nat) * pow2(149), d);
    }
    lemma_ramp(one, inner, x);
    let mask = adjustments::smoothstep(one, inner, x);
    lemma_minus(one, mask, -1, 4, 4);
    lemma_multiplied(vignette, one.minus(mask), 4, 4, 4);
    lemma_gain(vignette.times(one.minus(mask)));
}

/// 4.0.
pub const FOUR: u32 = 0x4080_0000;

/// A value from 0 to 4.
pub open spec fn up_to_four(v: Single) -> bool {
    Single::zero().at_most(v) && v.at_most(Single { bits: FOUR })
}

/// The powers of a channel lie between 0 and 4, as those of the light and the
/// code of a color do for a gain of two stops either way.
pub open spec fn powers_in_range(p: Powers) -> bool {
    up_to_four(p.light) && up_to_four(p.code)
}

/// 1.25, 4.0 and 4.5, and the other constants of the display curve.
pub(crate) proof fn lemma_curve_constants()
    ensures
        units_of(Single { bits: FOUR }) == 16 * quarter(),
        within(Single { bits: adjustments::SLOPE }, 18, 18),
        within(Single { bits: adjustments::CURVE_SCALE }, -5, 5),
        within(Single { bits: adjustments::CURVE_OFFSET }, -1, 1),
        units_of(Single { bits: adjustments::LIGHT_LINEAR_TO }) <= quarter(),
{
    reveal(units_of);
    let f = Format::Single;
    let h = pow2(126);
    lemma2_to64();
    lemma_measures();
    lemma_fractions();
    lemma_pow2_unfold(127);
    lemma_pow2_unfold(128);
    lemma_pow2_adds(21, 126);
    assert(0x4080_0000nat / 0x80_0000nat == 129 && 0x4080_0000nat % 0x80_0000nat == 0);
    assert(0x4090_0000nat / 0x80_0000nat == 129 && 0x4090_0000nat % 0x80_0000nat == 0x10_0000);
    assert(0x3fa0_0000nat / 0x80_0000nat == 127 && 0x3fa0_0000nat % 0x80_0000nat == 0x20_0000);
    assert(0x80_0000 * (2 * (2 * h)) == 16 * (0x20_0000 * h)) by (nonlinear_arith);
    assert((0x80_0000 + 0x10_0000) * (2 * (2 * h)) == 18 * (0x20_0000 * h)) by (nonlinear_arith);
    assert((0x80_0000 + 0x20_0000) * h == 5 * (0x20_0000 * h)) by (nonlinear_arith);
    assert(grid::units(f, 0x3fa0_0000) == 5 * quarter());
    assert(units_of(Single { bits: 0x3e80_0000 }) == grid::units(f, 0x3e80_0000));
    grid::lemma_units_increase(f, 0x3f8c_ac08, 0x3fa0_0000);
    grid::lemma_units_increase(f, 0x3dca_c083, 0x3e80_0000);
    grid::lemma_units_increase(f, 0x3c93_74bc, 0x3e80_0000);
}

proof fn lemma_up_to_four(v: Single)
    requires
        up_to_four(v),
    ensures
        within(v, 0, 16),
{
    lemma_curve_constants();
    lemma_ends();
    lemma_measures();
    assert(laws::is_finite(v));
    lemma_order(Single::zero(), v);
    lemma_order(v, Single { bits: FOUR });
    assert(0 * quarter() == 0);
}

/// A channel from 0 to 1 after the exposure stage.
proof fn lemma_exposed(ch: Single, gain: Single, powers: Powers)
    requires
        within(ch, 0, 4),
        up_to_four(gain),
        powers_in_range(powers),
    ensures
        within(adjustments::exposed(ch, gain, powers), -24, 24),
{
    let slope = Single { bits: adjustments::SLOPE };
    let (q, p) = (quarter(), whole());
    lemma_measures();
    lemma_ends();
    lemma_curve_constants();
    lemma_up_to_four(gain);
    lemma_up_to_four(powers.light);
    lemma_up_to_four(powers.code);
    assert(0 * q == 0);
    let v = ch.greater_of(Single::zero());
    assert(within(v, 0, 4));
    let (u, d) = (units_of(v), units_of(slope));
    assert(0 <= u * p <= (4 * q) * d) by (nonlinear_arith)
        requires
            0 <= u <= 4 * q,
            p == 4 * q,
            d == 18 * q,
            q > 0,
    ;
    assert(0 * d == 0);
    lemma_over(v, slope, 0, 4, 4);
    let light = adjustments::resolved(adjustments::light(ch), powers.light);
    assert(within(light, 0, 16));
    lemma_scaled(light, gain, 0, 16, 16, 0, 64, 64);
    let x = light.times(gain);
    let limit = Single { bits: adjustments::LIGHT_LINEAR_TO };
    lemma_order(x, limit);
    if x.less(limit) {
        lemma_scaled(x, slope, 0, 1, 18, 0, 5, 5);
    } else {
        let scale = Single { bits: adjustments::CURVE_SCALE };
        lemma_multiplied(scale, powers.code, 5, 16, 20);
        lemma_minus(scale.times(powers.code), Single { bits: adjustments::CURVE_OFFSET }, -21, 21, 21);
    }
}

/// Every per-pixel control of the packed blocks is from -1 to 1.
pub open spec fn unit_range(adjust: [[Single; 4]; 4]) -> bool {
    forall|i: int, j: int|
        0 <= i < 3 && 0 <= j < 4 ==> Single::one().opposite().at_most(#[trigger] adjust[i][j])
            && adjust[i][j].at_most(Single::one())
}

/// Every channel of a pixel is from 0 to the largest pixel value.
pub open spec fn on_scale(px: [Single; 4], max_pixel_value: Single) -> bool {
    forall|i: int|
        0 <= i < 3 ==> Single::zero().at_most(#[trigger] px[i]) && px[i].at_most(max_pixel_value)
}

/// The powers and roots of a pixel are what a power and a root can be: the gain
/// and the powers of an exposure from 0 to 4, and the distances of a vignette
/// numbers, that of the corner not 0.
pub open spec fn taken_in_range(taken: Taken, adjust: [[Single; 4]; 4]) -> bool {
    &&& adjustments::active(adjust[0][0]) ==> {
        &&& up_to_four(taken.gain)
        &&& powers_in_range(taken.powers[0])
        &&& powers_in_range(taken.powers[1])
        &&& powers_in_range(taken.powers[2])
    }
    &&& adjustments::active(adjust[2][3]) ==> {
        &&& laws::is_finite(taken.reach)
        &&& Single::zero().less(taken.corner)
        &&& laws::is_finite(taken.corner)
    }
}

/// A color on the scale from 0 to 1.
pub(crate) proof fn lemma_base(v: Single, max_pixel_value: Single)
    requires
        Single::zero().at_most(v),
        v.at_most(max_pixel_value),
        Single::zero().less(max_pixel_value),
        laws::is_finite(max_pixel_value),
    ensures
        within(v.over(max_pixel_value), 0, 4),
{
    let (q, p) = (quarter(), whole());
    lemma_measures();
    lemma_ends();
    assert(laws::is_finite(v));
    lemma_order(Single::zero(), v);
    lemma_order(v, max_pixel_value);
    lemma_order(Single::zero(), max_pixel_value);
    let (u, m) = (units_of(v), units_of(max_pixel_value));
    assert(0 <= u * p <= (4 * q) * m) by (nonlinear_arith)
        requires
            0 <= u <= m,
            p == 4 * q,
            q > 0,
    ;
    assert(0 * q == 0 && 0 * m == 0);
    lemma_over(v, max_pixel_value, 0, 4, 4);
}

/// The ratio of two distances is a number.
pub(crate) proof fn lemma_ratio(reach: Single, corner: Single)
    requires
        laws::is_finite(reach),
        Single::zero().less(corner),
        laws::is_finite(corner),
    ensures
        !reach.over(corner).nan(),
{
    let f = Format::Single;
    let d = corner.number().index as nat;
    grid::lemma_units_increase(f, 0, d);
    laws::law_nearest_exists(
        f,
        grid::units(f, reach.number().index as nat) * pow2(149),
        grid::units(f, d),
    );
}

/// The four bands, after one another.
#[verifier::rlimit(60)]
#[verifier::spinoff_prover]
proof fn lemma_tones(c: [Single; 3], adjust: [[Single; 4]; 4])
    requires
        all_within(c, 102),
        unit_range(adjust),
    ensures
        all_within(
            adjustments::with_tones(c, adjust[1][2], adjust[1][0], adjust[0][3], adjust[1][1]),
            1692,
        ),
{
    lemma_measures();
    lemma_fractions();
    lemma_ends();
    lemma_control(adjust[1][2]);
    lemma_control(adjust[1][0]);
    lemma_control(adjust[0][3]);
    lemma_control(adjust[1][1]);
    let zero = Single { bits: 0 };
    let one = Single { bits: 0x3f80_0000 };
    let quart = Single { bits: 0x3e80_0000 };
    let half = Single { bits: 0x3f00_0000 };
    let most = Single { bits: 0x3f40_0000 };
    lemma_band(c, adjust[1][2], zero, quart, true, 0, 1, 102);
    let c = adjustments::with_band(c, adjust[1][2], zero, quart, true);
    lemma_band(c, adjust[1][0], zero, half, true, 0, 2, 208);
    let c = adjustments::with_band(c, adjust[1][0], zero, half, true);
    lemma_band(c, adjust[0][3], half, one, false, 2, 4, 420);
    let c = adjustments::with_band(c, adjust[0][3], half, one, false);
    lemma_band(c, adjust[1][1], most, one, false, 3, 4, 844);
}

/// A color on the scale from 0 to 1, exposed.
proof fn lemma_exposure(
    px: [Single; 4],
    taken: Taken,
    adjust: [[Single; 4]; 4],
    max_pixel_value: Single,
)
    requires
        on_scale(px, max_pixel_value),
        Single::zero().less(max_pixel_value),
        laws::is_finite(max_pixel_value),
        taken_in_range(taken, adjust),
    ensures
        ({
            let c = adjustments::base(px, max_pixel_value);
            all_within(adjustments::with_exposure(c, adjust[0][0], taken.gain, taken.powers), 24)
        }),
{
    lemma_measures();
    assert(0 * quarter() == 0);
    lemma_base(px[0], max_pixel_value);
    lemma_base(px[1], max_pixel_value);
    lemma_base(px[2], max_pixel_value);
    let c = adjustments::base(px, max_pixel_value);
    if adjustments::active(adjust[0][0]) {
        lemma_exposed(c[0], taken.gain, taken.powers[0]);
        lemma_exposed(c[1], taken.gain, taken.powers[1]);
        lemma_exposed(c[2], taken.gain, taken.powers[2]);
    } else {
        assert(within(c[0], 0, 4) && within(c[1], 0, 4) && within(c[2], 0, 4));
        assert(-24 * quarter() <= 0 * quarter() && 4 * quarter() <= 24 * quarter());
        assert(all_within(c, 24));
    }
}

proof fn lemma_luminance(c: [Single; 3], luminance: Single, a: int)
    requires
        all_within(c, a),
        within(luminance, -4, 4),
        0 <= a < 0x2_0000,
    ensures
        all_within(adjustments::with_luminance(c, luminance), 2 * a),
{
    let gain = Single::one().plus(luminance.times(Single { bits: adjustments::LUMINANCE_GAIN }));
    lemma_measures();
    lemma_luminance_gain(luminance);
    lemma_lift(c[0], gain, a);
    lemma_lift(c[1], gain, a);
    lemma_lift(c[2], gain, a);
    lemma_widen(c[0], a, 2 * a);
    lemma_widen(c[1], a, 2 * a);
    lemma_widen(c[2], a, 2 * a);
}

proof fn lemma_contrast(c: [Single; 3], contrast: Single, a: int)
    requires
        all_within(c, a),
        within(contrast, -4, 4),
        0 <= a < 0x2_0000,
    ensures
        all_within(adjustments::with_contrast(c, contrast), 2 * a + 6),
{
    let gain = Single::one().plus(contrast);
    lemma_gain(contrast);
    lemma_pivot(c[0], gain, a);
    lemma_pivot(c[1], gain, a);
    lemma_pivot(c[2], gain, a);
    lemma_widen(c[0], a, 2 * a + 6);
    lemma_widen(c[1], a, 2 * a + 6);
    lemma_widen(c[2], a, 2 * a + 6);
}

proof fn lemma_balance(c: [Single; 3], temperature: Single, tint: Single, a: int)
    requires
        all_within(c, a),
        within(temperature, -4, 4),
        within(tint, -4, 4),
        0 <= a < 0x1_0000,
    ensures
        all_within(adjustments::with_balance(c, temperature, tint), a + 2),
{
    let strength = Single { bits: adjustments::WB_STRENGTH };
    lemma_tilts(temperature, tint);
    let t = temperature.times(strength);
    let g = tint.times(strength);
    let h = g.times(Single { bits: adjustments::HALF });
    lemma_shift(c[0], t, a);
    lemma_shift(c[0].plus(t), h, a + 1);
    lemma_shift(c[1], g, a);
    lemma_widen(c[1].minus(g), a + 1, a + 2);
    lemma_shift(c[2], t, a);
    lemma_shift(c[2].minus(t), h, a + 1);
    lemma_widen(c[0], a, a + 2);
    lemma_widen(c[1], a, a + 2);
    lemma_widen(c[2], a, a + 2);
}

proof fn lemma_saturation(c: [Single; 3], saturation: Single, a: int)
    requires
        all_within(c, a),
        within(saturation, -4, 4),
        0 <= a < 0x1_0000,
    ensures
        all_within(adjustments::with_saturation(c, saturation), 5 * a + 3),
{
    let gain = Single::one().plus(saturation);
    let l = adjustments::luma(c);
    lemma_gain(saturation);
    lemma_luma(c, a);
    lemma_spread(c[0], l, gain, a);
    lemma_spread(c[1], l, gain, a);
    lemma_spread(c[2], l, gain, a);
    lemma_widen(c[0], a, 5 * a + 3);
    lemma_widen(c[1], a, 5 * a + 3);
    lemma_widen(c[2], a, 5 * a + 3);
}

proof fn lemma_vibrance(c: [Single; 3], vibrance: Single, a: int)
    requires
        all_within(c, a),
        within(vibrance, -4, 4),
        0 <= a < 0x1_0000,
    ensures
        all_within(adjustments::with_vibrance(c, vibrance), 5 * a + 3),
{
    let gain = adjustments::vibrance_gain(c, vibrance);
    let l = adjustments::luma(c);
    lemma_vibrance_gain(c, vibrance, a);
    lemma_luma(c, a);
    lemma_spread(c[0], l, gain, a);
    lemma_spread(c[1], l, gain, a);
    lemma_spread(c[2], l, gain, a);
    lemma_widen(c[0], a, 5 * a + 3);
    lemma_widen(c[1], a, 5 * a + 3);
    lemma_widen(c[2], a, 5 * a + 3);
}

proof fn lemma_vignette(c: [Single; 3], vignette: Single, reach: Single, corner: Single, a: int)
    requires
        all_within(c, a),
        within(vignette, -4, 4),
        adjustments::active(vignette) ==> !reach.over(corner).nan(),
        0 <= a < 0x2_0000,
    ensures
        all_within(adjustments::with_vignette(c, vignette, reach, corner), 2 * a),
{
    lemma_widen(c[0], a, 2 * a);
    lemma_widen(c[1], a, 2 * a);
    lemma_widen(c[2], a, 2 * a);
    if adjustments::active(vignette) {
        lemma_vignette_gain(vignette, reach, corner);
        let mask = adjustments::smoothstep(
            Single { bits: adjustments::VIGNETTE_OUTER },
            Single { bits: adjustments::VIGNETTE_INNER },
            reach.over(corner),
        );
        let gain = Single::one().plus(vignette.times(Single::one().minus(mask)));
        lemma_lift(c[0], gain, a);
        lemma_lift(c[1], gain, a);
        lemma_lift(c[2], gain, a);
    }
}

/// No stage makes anything but numbers of a pixel on its scale, whatever the
/// controls are set to: so every channel ends between 0 and the largest pixel
/// value.
pub proof fn law_results_stay_on_scale(
    px: [Single; 4],
    taken: Taken,
    adjust: [[Single; 4]; 4],
    max_pixel_value: Single,
    ch: int,
)
    requires
        0 <= ch < 3,
        on_scale(px, max_pixel_value),
        Single::zero().less(max_pixel_value),
        laws::is_finite(max_pixel_value),
        unit_range(adjust),
        taken_in_range(taken, adjust),
    ensures
        ({
            let v = adjustments::graded(px, taken, adjust, max_pixel_value)[ch];
            let end = adjustments::finished(v, max_pixel_value);
            &&& laws::is_finite(v)
            &&& Single::zero().at_most(end)
            &&& end.at_most(max_pixel_value)
        }),
{
    let c = adjustments::base(px, max_pixel_value);
    let adj = adjust;
    lemma_control(adj[0][1]);
    lemma_control(adj[0][2]);
    lemma_control(adj[1][3]);
    lemma_control(adj[2][0]);
    lemma_control(adj[2][1]);
    lemma_control(adj[2][2]);
    lemma_control(adj[2][3]);
    lemma_exposure(px, taken, adjust, max_pixel_value);
    let c = adjustments::with_exposure(c, adj[0][0], taken.gain, taken.powers);
    lemma_luminance(c, adj[0][1], 24);
    let c = adjustments::with_luminance(c, adj[0][1]);
    lemma_contrast(c, adj[0][2], 48);
    let c = adjustments::with_contrast(c, adj[0][2]);
    lemma_tones(c, adjust);
    let c = adjustments::with_tones(c, adj[1][2], adj[1][0], adj[0][3], adj[1][1]);
    lemma_balance(c, adj[1][3], adj[2][0], 1692);
    let c = adjustments::with_balance(c, adj[1][3], adj[2][0]);
    lemma_saturation(c, adj[2][1], 1694);
    let c = adjustments::with_saturation(c, adj[2][1]);
    lemma_vibrance(c, adj[2][2], 8473);
    let c = adjustments::with_vibrance(c, adj[2][2]);
    if adjustments::active(adj[2][3]) {
        lemma_ratio(taken.reach, taken.corner);
    }
    lemma_vignette(c, adj[2][3], taken.reach, taken.corner, 42368);
    let c = adjustments::with_vignette(c, adj[2][3], taken.reach, taken.corner);
    assert(c == adjustments::graded(px, taken, adjust, max_pixel_value));
    color_laws::law_result_in_range(c[ch], max_pixel_value);
}

} // verus!
