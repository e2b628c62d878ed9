//! How rounding carries products, ratios and sums of any size: by a part of them.

use crate::color::drift;
use crate::color::drift::{units_of, whole};
use crate::color::scale;
use crate::ieee::grid;
use crate::ieee::grid::Format;
use crate::ieee::laws;
use crate::ieee::number;
use crate::ieee::single::Single;
use vstd::arithmetic::power2::*;
use vstd::prelude::*;

verus! {

/// `a` is `b` to within `k` times its 2^22nd part.
pub open spec fn near(a: int, b: int, k: int) -> bool {
    &&& b >= 0
    &&& -(k * b) <= (a - b) * 0x40_0000 <= k * b
}

/// A finite value above zero.
pub open spec fn positive(x: Single) -> bool {
    laws::is_finite(x) && units_of(x) > 0
}

pub(crate) proof fn lemma_chain(a: int, b: int, c: int, k: int, l: int)
    requires
        near(a, b, k),
        near(b, c, l),
        0 <= k <= 1024,
        0 <= l <= 1024,
    ensures
        near(a, c, k + l + 1),
{
    assert(0x40_0000 * (k * b) <= 0x40_0000 * (k * c) + 0x40_0000 * c) by (nonlinear_arith)
        requires
            (b - c) * 0x40_0000 <= l * c,
            c >= 0,
            0 <= k <= 1024,
            0 <= l <= 1024,
    {
        assert(k * ((b - c) * 0x40_0000) <= k * (l * c));
        assert(k * (l * c) == (k * l) * c);
        assert((k * l) * c <= 0x10_0000 * c);
        assert(k * ((b - c) * 0x40_0000) == 0x40_0000 * (k * b) - 0x40_0000 * (k * c));
    }
    assert((k + l + 1) * c == k * c + l * c + c) by (nonlinear_arith);
}

pub(crate) proof fn lemma_product(a: int, b: int, k: int, c: int, d: int, l: int)
    requires
        near(a, b, k),
        near(c, d, l),
        c >= 0,
        0 <= k <= 1024,
        0 <= l <= 1024,
    ensures
        near(a * c, b * d, k + l + 1),
{
    lemma_multiple(a, b, k, c);
    lemma_multiple(c, d, l, b);
    assert(c * b == b * c && d * b == b * d) by (nonlinear_arith);
    lemma_chain(a * c, b * c, b * d, k, l);
}

pub(crate) proof fn lemma_multiple(a: int, b: int, k: int, c: int)
    requires
        near(a, b, k),
        c >= 0,
    ensures
        near(a * c, b * c, k),
{
    assert(near(a * c, b * c, k)) by (nonlinear_arith)
        requires
            b >= 0,
            -(k * b) <= (a - b) * 0x40_0000 <= k * b,
            c >= 0,
    {
        let d = (a - b) * 0x40_0000;
        assert(d * c <= (k * b) * c && -((k * b) * c) <= d * c);
        assert((k * b) * c == k * (b * c));
        assert(d * c == (a * c - b * c) * 0x40_0000);
    }
}

pub(crate) proof fn lemma_cancel(a: int, b: int, k: int, c: int)
    requires
        near(a * c, b * c, k),
        c > 0,
    ensures
        near(a, b, k),
{
    assert(near(a, b, k)) by (nonlinear_arith)
        requires
            b * c >= 0,
            -(k * (b * c)) <= (a * c - b * c) * 0x40_0000 <= k * (b * c),
            c > 0,
    {
        let d = (a - b) * 0x40_0000;
        assert(d * c == (a * c - b * c) * 0x40_0000);
        assert((k * b) * c == k * (b * c));
    }
}

pub(crate) proof fn lemma_sum(a: int, b: int, c: int, d: int, k: int)
    requires
        near(a, b, k),
        near(c, d, k),
    ensures
        near(a + c, b + d, k),
{
    assert(k * (b + d) == k * b + k * d) by (nonlinear_arith);
}

pub(crate) proof fn lemma_flip(a: int, b: int, k: int)
    requires
        near(a, b, k),
        0 <= k <= 1024,
    ensures
        near(b, a, k + 1),
{
    assert(near(b, a, k + 1)) by (nonlinear_arith)
        requires
            b >= 0,
            -(k * b) <= (a - b) * 0x40_0000 <= k * b,
            0 <= k <= 1024,
    {
        assert(k * b <= 1024 * b);
        assert(2 * a >= b);
        assert((b - a) * 0x40_0000 <= k * b);
        assert(k * ((b - a) * 0x40_0000) <= k * (k * b));
        assert(k * (k * b) == (k * k) * b);
        assert((k * k) * b <= 0x10_0000 * b);
        assert(0x40_0000 * (k * b) - 0x40_0000 * (k * a) <= 0x10_0000 * b);
        assert(0x40_0000 * (k * b) <= 0x40_0000 * (k * a) + 0x20_0000 * a);
        assert((k + 1) * a == k * a + a);
    }
}

/// What is near lies between half and twice.
pub(crate) proof fn lemma_half(a: int, b: int, k: int)
    requires
        near(a, b, k),
        0 <= k <= 1024,
    ensures
        2 * a >= b,
        a <= 2 * b,
{
    assert(k * b <= 1024 * b) by (nonlinear_arith)
        requires
            k <= 1024,
            b >= 0,
    ;
}

/// 2^60, in units.
pub open spec fn far() -> int {
    0x1000_0000_0000_0000 * whole()
}

proof fn lemma_far()
    ensures
        grid::units(Format::Single, 0x5d80_0000) == far(),
        whole() >= 0x1_0000_0000_0000_0000_0000_0000,
{
    lemma2_to64();
    lemma2_to64_rest();
    lemma_pow2_adds(60, 149);
    lemma_pow2_adds(23, 186);
    lemma_pow2_adds(64, 32);
    lemma_pow2_strictly_increases(96, 149);
    assert(0x5d80_0000nat / 0x80_0000nat == 187 && 0x5d80_0000nat % 0x80_0000nat == 0);
}

/// A rounded ratio that is neither tiny nor far out.
proof fn lemma_rounded(n: nat, d: nat) -> (k: nat)
    requires
        d > 0,
        0x100_0000 * d <= n <= far() * d,
    ensures
        k == grid::round_magnitude(Format::Single, n, d),
        k < Format::Single.infinity(),
        near((grid::units(Format::Single, k) * d) as int, n as int, 1),
        grid::units(Format::Single, k) > 0,
{
    let f = Format::Single;
    lemma_far();
    let top = 0x5d80_0000nat;
    laws::law_nearest_exists(f, n, d);
    laws::law_rounding_keeps_values(f, top, d);
    let m = grid::units(f, top) * d;
    assert(n * d <= m * d) by (nonlinear_arith)
        requires
            n <= m,
    ;
    laws::law_rounding_keeps_order(f, n, d, m, d);
    let k = grid::round_magnitude(f, n, d);
    let u = grid::units(f, k);
    scale::lemma_relative(n, d, k);
    let w = u * d;
    assert((u + 0x80_0000) * d == w + 0x80_0000 * d) by (nonlinear_arith)
        requires
            w == u * d,
    ;
    assert(u * d * 0x100_0000 == w * 0x100_0000);
    assert(2 * (0x80_0000 * d) <= n);
    assert(near(w as int, n as int, 1));
    assert(u > 0) by {
        if u == 0 {
            assert(0 * d == 0);
        }
    }
    k
}

pub(crate) proof fn lemma_times(x: Single, y: Single)
    requires
        positive(x),
        positive(y),
        0x100_0000 * whole() <= units_of(x) * units_of(y) <= far() * whole(),
    ensures
        positive(x.times(y)),
        near(units_of(x.times(y)) * whole(), units_of(x) * units_of(y), 1),
{
    reveal(units_of);
    let f = Format::Single;
    let (a, b) = (x.number(), y.number());
    let (u, v) = (grid::units(f, a.index as nat), grid::units(f, b.index as nat));
    assert(grid::units(f, 0) == 0);
    lemma_pow2_pos(149);
    let k = lemma_rounded(u * v, pow2(149));
    assert(x.times(y).number().index == k && !x.times(y).number().negative);
}

pub(crate) proof fn lemma_over(x: Single, y: Single)
    requires
        positive(x),
        positive(y),
        0x100_0000 * units_of(y) <= units_of(x) * whole() <= far() * units_of(y),
    ensures
        positive(x.over(y)),
        near(units_of(x.over(y)) * units_of(y), units_of(x) * whole(), 1),
{
    reveal(units_of);
    let f = Format::Single;
    let (a, b) = (x.number(), y.number());
    let (u, v) = (grid::units(f, a.index as nat), grid::units(f, b.index as nat));
    assert(grid::units(f, 0) == 0);
    lemma_pow2_pos(149);
    let k = lemma_rounded(u * pow2(149), v);
    assert(x.over(y).number().index == k && !x.over(y).number().negative);
}

pub(crate) proof fn lemma_plus(x: Single, y: Single)
    requires
        laws::is_finite(x),
        laws::is_finite(y),
        0x100_0000 <= units_of(x) + units_of(y) <= far(),
    ensures
        positive(x.plus(y)),
        near(units_of(x.plus(y)), units_of(x) + units_of(y), 1),
{
    reveal(units_of);
    let f = Format::Single;
    assert(grid::units(f, 0) == 0);
    let t = units_of(x) + units_of(y);
    assert(far() * 1 == far());
    let k = lemma_rounded(t as nat, 1);
    assert(x.plus(y).number() == number::rounded_units(f, t));
    assert(x.plus(y).number().index == k && !x.plus(y).number().negative);
    assert(grid::units(f, k) * 1 == grid::units(f, k));
}

pub(crate) proof fn lemma_minus(x: Single, y: Single)
    requires
        laws::is_finite(x),
        laws::is_finite(y),
        0x100_0000 <= units_of(x) - units_of(y) <= far(),
    ensures
        positive(x.minus(y)),
        near(units_of(x.minus(y)), units_of(x) - units_of(y), 1),
{
    let z = y.opposite();
    assert(z.number() == number::negated(y.number()));
    assert(laws::is_finite(z) && units_of(z) == -units_of(y)) by {
        reveal(units_of);
    }
    lemma_plus(x, z);
    assert(x.minus(y) == x.plus(z));
}

/// A full turn is 6.2831853, to within its 2^22nd part.
pub(crate) proof fn lemma_turn()
    ensures
        ({
            let t = Single { bits: 0x40c9_0fdb };
            &&& positive(t)
            &&& near(10_000_000 * units_of(t), 62_831_853 * whole(), 1)
            &&& whole() <= units_of(t) <= 8 * whole()
        }),
{
    reveal(units_of);
    drift::lemma_measures();
    lemma2_to64();
    let t = Single { bits: 0x40c9_0fdb };
    assert(t.number().index == 0x40c9_0fdb && !t.number().negative);
    assert(0x40c9_0fdbnat / 0x80_0000nat == 129 && 0x40c9_0fdbnat % 0x80_0000nat == 0x49_0fdb);
    let h = pow2(128) as int;
    lemma_pow2_pos(128);
    lemma_pow2_adds(21, 128);
    assert(whole() == 0x20_0000 * h);
    assert((0x80_0000 + 0x49_0fdb) * h == 13176795 * h) by (nonlinear_arith);
}

} // verus!
