//! Arithmetic on signed magnitudes of a floating-point format.
//!
//! Each operation is the exact one on the two values, rounded once to the
//! nearest magnitude.

use crate::ieee::grid;
use crate::ieee::grid::Format;
use vstd::arithmetic::div_mod::*;
use vstd::arithmetic::power2::*;
use vstd::prelude::*;

verus! {

/// A value of a floating-point format: a sign and the index of a magnitude.
#[derive(Clone, Copy, Debug, PartialEq, Eq, Structural)]
pub struct Number {
    pub negative: bool,
    pub index: u64,
}

pub open spec fn is_nan(f: Format, x: Number) -> bool {
    x.index > f.infinity()
}

pub open spec fn is_infinite(f: Format, x: Number) -> bool {
    x.index == f.infinity()
}

pub open spec fn is_finite(f: Format, x: Number) -> bool {
    x.index < f.infinity()
}

/// The value in units of the smallest subnormal.
pub open spec fn signed_units(f: Format, x: Number) -> int {
    let u = grid::units(f, x.index as nat);
    if x.negative {
        -u
    } else {
        u as int
    }
}

/// Place in the order of values; both zeros share one place.
pub open spec fn rank(x: Number) -> int {
    if x.negative {
        -(x.index as int)
    } else {
        x.index as int
    }
}

pub open spec fn nan(f: Format) -> Number {
    Number { negative: false, index: f.quiet_nan() as u64 }
}

pub open spec fn infinite(f: Format, negative: bool) -> Number {
    Number { negative, index: f.infinity() as u64 }
}

pub open spec fn zero(negative: bool) -> Number {
    Number { negative, index: 0 }
}

/// The value nearest to `n / d` units, ties to even.
pub open spec fn rounded(f: Format, negative: bool, n: nat, d: nat) -> Number {
    Number { negative, index: grid::round_magnitude(f, n, d) as u64 }
}

/// The value nearest to a whole number of units; an exact zero is positive.
pub open spec fn rounded_units(f: Format, t: int) -> Number {
    if t < 0 {
        rounded(f, true, (-t) as nat, 1)
    } else {
        rounded(f, false, t as nat, 1)
    }
}

pub open spec fn sum(f: Format, a: Number, b: Number) -> Number {
    if is_nan(f, a) || is_nan(f, b) || (is_infinite(f, a) && is_infinite(f, b) && a.negative
        != b.negative) {
        nan(f)
    } else if is_infinite(f, a) {
        a
    } else if is_infinite(f, b) {
        b
    } else if a.index == 0 && b.index == 0 {
        zero(a.negative && b.negative)
    } else {
        rounded_units(f, signed_units(f, a) + signed_units(f, b))
    }
}

pub open spec fn negated(x: Number) -> Number {
    Number { negative: !x.negative, index: x.index }
}

pub open spec fn product(f: Format, a: Number, b: Number) -> Number {
    let negative = a.negative != b.negative;
    if is_nan(f, a) || is_nan(f, b) || (is_infinite(f, a) && b.index == 0) || (is_infinite(f, b)
        && a.index == 0) {
        nan(f)
    } else if is_infinite(f, a) || is_infinite(f, b) {
        infinite(f, negative)
    } else {
        rounded(
            f,
            negative,
            grid::units(f, a.index as nat) * grid::units(f, b.index as nat),
            pow2(f.scale()),
        )
    }
}

pub open spec fn quotient(f: Format, a: Number, b: Number) -> Number {
    let negative = a.negative != b.negative;
    if is_nan(f, a) || is_nan(f, b) || (is_infinite(f, a) && is_infinite(f, b)) || (a.index == 0
        && b.index == 0) {
        nan(f)
    } else if is_infinite(f, a) || b.index == 0 {
        infinite(f, negative)
    } else if is_infinite(f, b) {
        zero(negative)
    } else {
        rounded(
            f,
            negative,
            grid::units(f, a.index as nat) * pow2(f.scale()),
            grid::units(f, b.index as nat),
        )
    }
}

/// The integer `v`, in the format.
pub open spec fn of_integer(f: Format, negative: bool, v: nat) -> Number {
    rounded(f, negative, v * pow2(f.scale()), 1)
}

/// The value of `x`, a value of `from`, in `to`.
pub open spec fn converted(from: Format, to: Format, x: Number) -> Number {
    if is_nan(from, x) {
        nan(to)
    } else if is_infinite(from, x) {
        infinite(to, x.negative)
    } else {
        rounded(
            to,
            x.negative,
            grid::units(from, x.index as nat) * pow2(to.scale()),
            pow2(from.scale()),
        )
    }
}

/// Whole part of the magnitude.
pub open spec fn whole(f: Format, x: Number) -> nat {
    grid::units(f, x.index as nat) / pow2(f.scale())
}

/// Whether the magnitude is a whole number.
pub open spec fn is_whole(f: Format, x: Number) -> bool {
    grid::units(f, x.index as nat) % pow2(f.scale()) == 0
}

/// Whole part of the magnitude, raised where a fraction is left.
pub open spec fn whole_up(f: Format, x: Number) -> nat {
    if is_whole(f, x) {
        whole(f, x)
    } else {
        whole(f, x) + 1
    }
}

/// Whole number nearest to the magnitude, halves going up.
pub open spec fn whole_nearest(f: Format, x: Number) -> nat {
    if 2 * (grid::units(f, x.index as nat) % pow2(f.scale())) >= pow2(f.scale()) {
        whole(f, x) + 1
    } else {
        whole(f, x)
    }
}

/// `v`, or the largest `u64` where it is too large for one.
pub open spec fn capped(v: nat) -> u64 {
    if v <= u64::MAX {
        v as u64
    } else {
        u64::MAX
    }
}

/// Significand and exponent of a magnitude.
pub(crate) fn split(f: Format, index: u64) -> (r: (u64, i32))
    requires
        index <= f.infinity(),
    ensures
        grid::units(f, index as nat) == r.0 * pow2(r.1 as nat),
        index == r.1 * f.binade() + r.0,
        r.0 < 2 * f.binade(),
        r.0 < 0x20_0000_0000_0000,
        0 <= r.1 <= 2046,
        r.1 == 0 || f.binade() <= r.0,
        r.0 == 0 <==> index == 0,
{
    let b = f.binade_len();
    proof {
        lemma2_to64();
    }
    let field: u64 = match f {
        Format::Single => index / 0x80_0000,
        Format::Double => index / 0x10_0000_0000_0000,
    };
    let frac: u64 = match f {
        Format::Single => index % 0x80_0000,
        Format::Double => index % 0x10_0000_0000_0000,
    };
    if field == 0 {
        proof {
            assert(index == frac);
            assert(frac * pow2(0) == frac);
        }
        (frac, 0)
    } else {
        proof {
            assert(index >= f.binade());
        }
        (b + frac, (field - 1) as i32)
    }
}

fn add_finite(f: Format, a: Number, b: Number) -> (r: Number)
    requires
        is_finite(f, a),
        is_finite(f, b),
        a.index != 0,
        b.index != 0,
    ensures
        r == rounded_units(f, signed_units(f, a) + signed_units(f, b)),
        r.index <= f.quiet_nan(),
{
    let (ma, ea) = split(f, a.index);
    let (mb, eb) = split(f, b.index);
    if ea >= eb {
        add_ordered(f, a.negative, ma, ea, b.negative, mb, eb)
    } else {
        add_ordered(f, b.negative, mb, eb, a.negative, ma, ea)
    }
}

/// Rounds a whole number of units `m * 2^q`.
fn round_units(f: Format, negative: bool, m: u128, q: i32) -> (r: Number)
    requires
        m < pow2(120),
        0 <= q <= 2046,
    ensures
        r == rounded(f, negative, m as nat * pow2(q as nat), 1),
        r.index <= f.quiet_nan(),
{
    if m == 0 {
        proof {
            lemma_round_zero(f, 1);
            assert(0 * pow2(q as nat) == 0);
        }
        return Number { negative, index: 0 };
    }
    let ghost n = m as nat * pow2(q as nat);
    proof {
        lemma2_to64();
        assert(n * 1 == m * pow2(q as nat) * 1);
    }
    let index = grid::round_scaled(f, m, q, false, Ghost(n), Ghost(1));
    Number { negative, index }
}

pub(crate) proof fn lemma_round_zero(f: Format, d: nat)
    requires
        d > 0,
    ensures
        grid::round_magnitude(f, 0, d) == 0,
{
    assert(grid::twice_midpoint(f, 0) == 1);
    assert(grid::nearest(f, 0, 0, d));
    grid::lemma_round_is(f, 0, 0, d);
}

pub open spec fn signed(negative: bool, v: nat) -> int {
    if negative {
        -v
    } else {
        v as int
    }
}

/// Sum of two values given by significand and exponent, the first not the lower.
fn add_ordered(f: Format, an: bool, ma: u64, ea: i32, bn: bool, mb: u64, eb: i32) -> (r: Number)
    requires
        0 <= eb <= ea <= 2046,
        0 < ma < 0x20_0000_0000_0000,
        0 < mb < 0x20_0000_0000_0000,
        ma < 2 * f.binade(),
        ea == 0 || f.binade() <= ma,
    ensures
        r == rounded_units(
            f,
            signed(an, ma as nat * pow2(ea as nat)) + signed(bn, mb as nat * pow2(eb as nat)),
        ),
        r.index <= f.quiet_nan(),
{
    if ea - eb <= 60 {
        add_close(f, an, ma, ea, bn, mb, eb)
    } else {
        add_far(f, an, ma, ea, bn, mb, eb)
    }
}

/// Sum of two values whose exponents are close enough for an exact sum.
fn add_close(f: Format, an: bool, ma: u64, ea: i32, bn: bool, mb: u64, eb: i32) -> (r: Number)
    requires
        0 <= eb <= ea <= 2046,
        ea - eb <= 60,
        0 < ma < 0x20_0000_0000_0000,
        0 < mb < 0x20_0000_0000_0000,
    ensures
        r == rounded_units(
            f,
            signed(an, ma as nat * pow2(ea as nat)) + signed(bn, mb as nat * pow2(eb as nat)),
        ),
        r.index <= f.quiet_nan(),
{
    let diff: u32 = (ea - eb) as u32;
    let ghost pa = pow2(ea as nat);
    let ghost pb = pow2(eb as nat);
    let ghost pd = pow2(diff as nat);
    proof {
        lemma_pow2_pos(eb as nat);
        lemma_pow2_pos(diff as nat);
        lemma2_to64();
        lemma2_to64_rest();
        lemma_pow2_adds(eb as nat, diff as nat);
        if diff < 60 {
            lemma_pow2_strictly_increases(diff as nat, 60);
        }
        lemma_pow2_adds(60, 60);
        assert(0 < ma * pd < 0x20_0000_0000_0000 * 0x1000000000000000) by (nonlinear_arith)
            requires
                0 < ma < 0x20_0000_0000_0000,
                0 < pd <= 0x1000000000000000,
        ;
    }
    let wide: u128 = ma as u128 * grid::power_of_two(diff);
    proof {
        assert(ma * pa == wide * pb) by (nonlinear_arith)
            requires
                wide == ma * pd,
                pa == pb * pd,
        ;
        assert(pow2(120) == 0x1000000000000000 * 0x1000000000000000);
    }
    if an == bn {
        proof {
            assert((wide + mb) * pb == wide * pb + mb * pb) by (nonlinear_arith);
            assert((wide + mb) * pb > 0) by (nonlinear_arith)
                requires
                    wide + mb > 0,
                    pb > 0,
            ;
        }
        round_units(f, an, wide + mb as u128, eb)
    } else if wide >= mb as u128 {
        let left: u128 = wide - mb as u128;
        proof {
            assert(left * pb == wide * pb - mb * pb) by (nonlinear_arith)
                requires
                    left == wide - mb,
            ;
            assert(left > 0 ==> left * pb > 0) by (nonlinear_arith)
                requires
                    pb > 0,
            ;
            assert(left == 0 ==> left * pb == 0);
        }
        round_units(f, an && left > 0, left, eb)
    } else {
        let left: u128 = mb as u128 - wide;
        proof {
            assert(left * pb == mb * pb - wide * pb) by (nonlinear_arith)
                requires
                    left == mb - wide,
            ;
            assert(left * pb > 0) by (nonlinear_arith)
                requires
                    left > 0,
                    pb > 0,
            ;
        }
        round_units(f, bn, left, eb)
    }
}

/// Sum where the second value only tells on which side of the first it lies.
fn add_far(f: Format, an: bool, ma: u64, ea: i32, bn: bool, mb: u64, eb: i32) -> (r: Number)
    requires
        0 <= eb <= ea <= 2046,
        ea - eb > 60,
        0 < mb < 0x20_0000_0000_0000,
        f.binade() <= ma < 2 * f.binade(),
    ensures
        r == rounded_units(
            f,
            signed(an, ma as nat * pow2(ea as nat)) + signed(bn, mb as nat * pow2(eb as nat)),
        ),
        r.index <= f.quiet_nan(),
{
    let q: i32 = ea - 8;
    let ghost pa = pow2(ea as nat);
    let ghost pb = pow2(eb as nat);
    let ghost pq = pow2(q as nat);
    let ghost t = signed(an, ma as nat * pa) + signed(bn, mb as nat * pb);
    let wide: u128 = ma as u128 * 256;
    let ghost n = (if t < 0 { -t } else { t }) as nat;
    let m: u128 = if an == bn {
        wide
    } else {
        wide - 1
    };
    proof {
        lemma2_to64();
        lemma2_to64_rest();
        grid::lemma_binade(f);
        lemma_pow2_pos(eb as nat);
        lemma_pow2_pos(q as nat);
        lemma_pow2_adds(q as nat, 8);
        assert(ma * pa == wide * pq) by (nonlinear_arith)
            requires
                wide == ma * 256,
                pa == pq * 256,
        ;
        lemma_pow2_adds(eb as nat, 53);
        if eb + 53 < q {
            lemma_pow2_strictly_increases((eb + 53) as nat, q as nat);
        }
        assert(0 < mb * pb < pq) by (nonlinear_arith)
            requires
                0 < mb < 0x20_0000_0000_0000,
                pb > 0,
                pb * 0x20_0000_0000_0000 <= pq,
        ;
        lemma_pow2_unfold(f.precision() + 1);
        lemma_pow2_strictly_increases(64, 120);
        assert((wide + 1) * pq == wide * pq + pq) by (nonlinear_arith);
        assert((wide - 1) * pq == wide * pq - pq) by (nonlinear_arith);
        assert(wide * pq > pq) by (nonlinear_arith)
            requires
                wide > 1,
                pq > 0,
        ;
        assert(n * 1 == n);
        assert(m * pq * 1 == m * pq);
        assert((m + 1) * pq * 1 == (m + 1) * pq);
        if an == bn {
            assert(n == wide * pq + mb * pb);
        } else {
            assert(n == wide * pq - mb * pb);
            assert((m + 1) * pq == wide * pq);
            assert(m * pq == wide * pq - pq);
        }
        assert(pow2(0) == 1);
    }
    let index = grid::round_scaled(f, m, q, true, Ghost(n), Ghost(1));
    Number { negative: an, index }
}

/// `a + b`.
pub fn add_numbers(f: Format, a: Number, b: Number) -> (r: Number)
    ensures
        r == sum(f, a, b),
        r.index <= f.quiet_nan(),
{
    let top = f.infinity_index();
    if a.index >= top || b.index >= top {
        if a.index > top || b.index > top || (a.index == b.index && a.negative != b.negative) {
            return Number { negative: false, index: f.nan_index() };
        }
        return if a.index == top {
            a
        } else {
            b
        };
    }
    if a.index == 0 {
        if b.index == 0 {
            return Number { negative: a.negative && b.negative, index: 0 };
        }
        proof {
            lemma_round_self(f, b);
        }
        return b;
    }
    if b.index == 0 {
        proof {
            lemma_round_self(f, a);
        }
        return a;
    }
    add_finite(f, a, b)
}

/// A finite nonzero value rounds to itself.
proof fn lemma_round_self(f: Format, x: Number)
    requires
        is_finite(f, x),
        x.index != 0,
    ensures
        rounded_units(f, signed_units(f, x)) == x,
{
    let k = x.index as nat;
    let u = grid::units(f, k);
    grid::lemma_units_increase(f, 0, k);
    assert(u * 1 == u);
    grid::lemma_nearest_exact(f, k, u, 1);
    grid::lemma_nearest_cut(f, k, u, 1);
    grid::lemma_round_is(f, k, u, 1);
}

/// `a * b`.
pub fn multiply_numbers(f: Format, a: Number, b: Number) -> (r: Number)
    ensures
        r == product(f, a, b),
        r.index <= f.quiet_nan(),
{
    let top = f.infinity_index();
    let negative = a.negative != b.negative;
    if a.index >= top || b.index >= top {
        if a.index > top || b.index > top || a.index == 0 || b.index == 0 {
            return Number { negative: false, index: f.nan_index() };
        }
        return Number { negative, index: top };
    }
    let (ma, ea) = split(f, a.index);
    let (mb, eb) = split(f, b.index);
    let ghost ua = grid::units(f, a.index as nat);
    let ghost ub = grid::units(f, b.index as nat);
    let ghost d = pow2(f.scale());
    proof {
        lemma_pow2_pos(f.scale());
    }
    if ma == 0 || mb == 0 {
        proof {
            assert(ua * ub == 0) by (nonlinear_arith)
                requires
                    ua == 0 || ub == 0,
            ;
            lemma_round_zero(f, d);
        }
        return Number { negative, index: 0 };
    }
    proof {
        assert(ma * mb < 0x20_0000_0000_0000 * 0x20_0000_0000_0000) by (nonlinear_arith)
            requires
                0 < ma < 0x20_0000_0000_0000,
                0 < mb < 0x20_0000_0000_0000,
        ;
        assert(0 < ma * mb) by (nonlinear_arith)
            requires
                0 < ma,
                0 < mb,
        ;
        lemma2_to64();
        lemma2_to64_rest();
        lemma_pow2_adds(60, 60);
        assert(0x20_0000_0000_0000 * 0x20_0000_0000_0000 < 0x1000000000000000 * 0x1000000000000000);
    }
    let m: u128 = ma as u128 * mb as u128;
    let q: i32 = ea + eb - f.scale_bits();
    proof {
        lemma_pow2_adds(ea as nat, eb as nat);
        let pe = pow2((ea + eb) as nat);
        assert(ua * ub == m * pe) by (nonlinear_arith)
            requires
                ua == ma * pow2(ea as nat),
                ub == mb * pow2(eb as nat),
                m == ma * mb,
                pe == pow2(ea as nat) * pow2(eb as nat),
        ;
        if q >= 0 {
            lemma_pow2_adds(q as nat, f.scale());
            assert(q as nat + f.scale() == (ea + eb) as nat);
            assert(ua * ub * 1 == m * pow2(q as nat) * d) by (nonlinear_arith)
                requires
                    ua * ub == m * pe,
                    pe == pow2(q as nat) * d,
            ;
        } else {
            lemma_pow2_adds((ea + eb) as nat, (-q) as nat);
            assert((ea + eb) as nat + (-q) as nat == f.scale());
            assert(ua * ub * pow2((-q) as nat) == m * 1 * d) by (nonlinear_arith)
                requires
                    ua * ub == m * pe,
                    d == pe * pow2((-q) as nat),
            ;
        }
    }
    let index = grid::round_scaled(f, m, q, false, Ghost(ua * ub), Ghost(d));
    Number { negative, index }
}

/// `a / b`.
pub fn divide_numbers(f: Format, a: Number, b: Number) -> (r: Number)
    ensures
        r == quotient(f, a, b),
        r.index <= f.quiet_nan(),
{
    let top = f.infinity_index();
    let negative = a.negative != b.negative;
    if a.index > top || b.index > top || (a.index == top && b.index == top) || (a.index == 0
        && b.index == 0) {
        return Number { negative: false, index: f.nan_index() };
    }
    if a.index == top || b.index == 0 {
        return Number { negative, index: top };
    }
    if b.index == top {
        return Number { negative, index: 0 };
    }
    let (ma, ea) = split(f, a.index);
    let (mb, eb) = split(f, b.index);
    let ghost ua = grid::units(f, a.index as nat);
    let ghost ub = grid::units(f, b.index as nat);
    let ghost n = ua * pow2(f.scale());
    proof {
        lemma_pow2_pos(eb as nat);
        assert(ub > 0) by (nonlinear_arith)
            requires
                ub == mb * pow2(eb as nat),
                mb > 0,
                pow2(eb as nat) > 0,
        ;
    }
    if ma == 0 {
        proof {
            assert(0 * pow2(ea as nat) == 0);
            assert(n == 0) by (nonlinear_arith)
                requires
                    ua == 0,
                    n == ua * pow2(f.scale()),
            ;
            lemma_round_zero(f, ub);
        }
        return Number { negative, index: 0 };
    }
    let length = grid::bit_length(ma as u128);
    proof {
        lemma2_to64();
        lemma2_to64_rest();
        if length > 54 {
            lemma_pow2_strictly_increases(53, (length - 1) as nat);
        }
        assert(length <= 53);
    }
    let lift: u32 = 119 - length;
    let ghost pl = pow2(lift as nat);
    proof {
        lemma_pow2_adds(length as nat, lift as nat);
        lemma_pow2_adds((length - 1) as nat, lift as nat);
        lemma_pow2_pos(lift as nat);
        lemma_pow2_strictly_increases(119, 120);
        lemma_pow2_adds(64, 55);
        lemma_pow2_adds(65, 53);
        lemma_pow2_adds(64, 1);
        assert(ma * pl < pow2(119)) by (nonlinear_arith)
            requires
                ma < pow2(length as nat),
                pl > 0,
                pow2(119) == pow2(length as nat) * pl,
        ;
        assert(ma * pl >= pow2(118)) by (nonlinear_arith)
            requires
                ma >= pow2((length - 1) as nat),
                pl > 0,
                pow2(118) == pow2((length - 1) as nat) * pl,
        ;
    }
    let wide: u128 = ma as u128 * grid::power_of_two(lift);
    let m: u128 = wide / mb as u128;
    let rem: u128 = wide % mb as u128;
    let q: i32 = ea - eb + f.scale_bits() - lift as i32;
    let sticky = rem != 0;
    proof {
        lemma_fundamental_div_mod(wide as int, mb as int);
        assert(m <= wide) by (nonlinear_arith)
            requires
                wide == mb * m + rem,
                mb >= 1,
                rem >= 0,
                m >= 0,
        ;
        assert(m >= pow2(65)) by (nonlinear_arith)
            requires
                wide == mb * m + rem,
                rem < mb,
                mb < 0x20_0000_0000_0000,
                wide >= pow2(65) * 0x20_0000_0000_0000,
        ;
        lemma_pow2_strictly_increases(f.precision() + 1, 65);
        lemma_quotient_bracket(ma as nat, ea as nat, mb as nat, eb as nat, f.scale(), lift as nat, m as nat, rem as nat, q as int, n, ub);
    }
    let index = grid::round_scaled(f, m, q, sticky, Ghost(n), Ghost(ub));
    Number { negative, index }
}

/// The quotient of two lifted significands brackets the exact ratio.
pub(crate) proof fn lemma_quotient_bracket(
    ma: nat,
    ea: nat,
    mb: nat,
    eb: nat,
    scale: nat,
    lift: nat,
    m: nat,
    rem: nat,
    q: int,
    n: nat,
    d: nat,
)
    requires
        ma * pow2(lift) == mb * m + rem,
        0 <= rem < mb,
        q == ea - eb + scale - lift,
        n == ma * pow2(ea) * pow2(scale),
        d == mb * pow2(eb),
    ensures
        grid::bracketed(m, q, rem != 0, n, d),
{
    let up = pow2(if q > 0 { q as nat } else { 0 });
    let down = pow2(if q < 0 { (-q) as nat } else { 0 });
    lemma2_to64();
    let c = pow2(eb) * up;
    lemma_pow2_pos(eb);
    lemma_pow2_pos(if q > 0 { q as nat } else { 0 });
    assert(c > 0) by (nonlinear_arith)
        requires
            c == pow2(eb) * up,
            up > 0,
            pow2(eb) > 0,
    ;
    lemma_pow2_adds(ea, scale);
    // Both sides carry the same power of two.
    assert(pow2(ea + scale) * down == pow2(lift) * c) by {
        if q >= 0 {
            lemma_pow2_adds(eb, q as nat);
            lemma_pow2_adds(lift, eb + q as nat);
            assert(lift + (eb + q as nat) == ea + scale);
            if q == 0 {
                assert(pow2(eb) * 1 == pow2(eb));
            }
            assert(pow2(ea + scale) * 1 == pow2(ea + scale));
        } else {
            lemma_pow2_adds(ea + scale, (-q) as nat);
            lemma_pow2_adds(lift, eb);
            assert(ea + scale + (-q) as nat == lift + eb);
            assert(pow2(eb) * 1 == pow2(eb));
        }
    }
    assert(n * down == (mb * m + rem) * c) by (nonlinear_arith)
        requires
            n == ma * pow2(ea) * pow2(scale),
            pow2(ea + scale) == pow2(ea) * pow2(scale),
            pow2(ea + scale) * down == pow2(lift) * c,
            ma * pow2(lift) == mb * m + rem,
    ;
    assert(m * up * d == (mb * m) * c) by (nonlinear_arith)
        requires
            d == mb * pow2(eb),
            c == pow2(eb) * up,
    ;
    assert((m + 1) * up * d == (mb * m + mb) * c) by (nonlinear_arith)
        requires
            d == mb * pow2(eb),
            c == pow2(eb) * up,
    ;
    if rem == 0 {
    } else {
        assert((mb * m) * c < (mb * m + rem) * c) by (nonlinear_arith)
            requires
                rem > 0,
                c > 0,
        ;
        assert((mb * m + rem) * c < (mb * m + mb) * c) by (nonlinear_arith)
            requires
                rem < mb,
                c > 0,
        ;
    }
}

proof fn lemma_whole_of_split(u: nat, m: nat, e: nat, scale: nat)
    requires
        u == m * pow2(e),
    ensures
        e >= scale ==> u / pow2(scale) == m * pow2((e - scale) as nat) && u % pow2(scale) == 0,
        e < scale ==> {
            let t = pow2((scale - e) as nat);
            &&& u / pow2(scale) == m / t
            &&& u % pow2(scale) == (m % t) * pow2(e)
            &&& pow2(scale) == t * pow2(e)
        },
{
    lemma_pow2_pos(scale);
    lemma_pow2_pos(e);
    if e >= scale {
        let h = pow2((e - scale) as nat);
        lemma_pow2_adds((e - scale) as nat, scale);
        assert(u == (m * h) * pow2(scale) + 0) by (nonlinear_arith)
            requires
                u == m * pow2(e),
                pow2(e) == h * pow2(scale),
        ;
        lemma_fundamental_div_mod_converse(u as int, pow2(scale) as int, (m * h) as int, 0);
    } else {
        let t = pow2((scale - e) as nat);
        lemma_pow2_pos((scale - e) as nat);
        lemma_pow2_adds((scale - e) as nat, e);
        lemma_fundamental_div_mod(m as int, t as int);
        let a = m as int / t as int;
        let b = m as int % t as int;
        assert(u == a * pow2(scale) + b * pow2(e)) by (nonlinear_arith)
            requires
                u == m * pow2(e),
                m == t * a + b,
                pow2(scale) == t * pow2(e),
        ;
        assert(0 <= b * pow2(e) < pow2(scale)) by (nonlinear_arith)
            requires
                0 <= b < t,
                pow2(e) > 0,
                pow2(scale) == t * pow2(e),
        ;
        lemma_fundamental_div_mod_converse(u as int, pow2(scale) as int, a, b * pow2(e));
    }
}

/// Whole part of a magnitude, whether a fraction is left, and whether that
/// fraction is at least a half.
fn whole_parts(f: Format, x: Number) -> (r: (u64, bool, bool))
    requires
        !is_nan(f, x),
    ensures
        r.0 == capped(whole(f, x)),
        r.1 == !is_whole(f, x),
        r.2 == (2 * (grid::units(f, x.index as nat) % pow2(f.scale())) >= pow2(f.scale())),
        r.1 || r.2 ==> r.0 < 0x20_0000_0000_0000,
{
    let (m, e) = split(f, x.index);
    let sc = f.scale_bits();
    let ghost u = grid::units(f, x.index as nat);
    proof {
        lemma_whole_of_split(u, m as nat, e as nat, f.scale());
        lemma_pow2_pos(f.scale());
        lemma_pow2_pos(e as nat);
        lemma2_to64();
        lemma2_to64_rest();
    }
    if e >= sc {
        let t: u32 = (e - sc) as u32;
        if m == 0 {
            proof {
                assert(0 * pow2(t as nat) == 0);
            }
            return (0, false, false);
        }
        if t >= 64 {
            proof {
                if t > 64 {
                    lemma_pow2_strictly_increases(64, t as nat);
                }
                assert(m * pow2(t as nat) >= pow2(64)) by (nonlinear_arith)
                    requires
                        m >= 1,
                        pow2(t as nat) >= pow2(64),
                ;
            }
            return (u64::MAX, false, false);
        }
        proof {
            lemma_pow2_strictly_increases(t as nat, 64);
            lemma_pow2_pos(t as nat);
            assert(m * pow2(t as nat) < 0x20_0000_0000_0000 * 0x1_0000_0000_0000_0000)
                by (nonlinear_arith)
                requires
                    m < 0x20_0000_0000_0000,
                    0 < pow2(t as nat) <= 0x1_0000_0000_0000_0000,
            ;
        }
        let v: u128 = m as u128 * grid::power_of_two(t);
        if v <= u64::MAX as u128 {
            (v as u64, false, false)
        } else {
            (u64::MAX, false, false)
        }
    } else {
        let t: u32 = (sc - e) as u32;
        let ghost pt = pow2(t as nat);
        let ghost pe = pow2(e as nat);
        if t >= 64 {
            proof {
                if t > 64 {
                    lemma_pow2_strictly_increases(64, t as nat);
                }
                lemma_basic_div(m as int, pt as int);
                lemma_small_mod(m as nat, pt);
                assert(m > 0 ==> m * pe > 0) by (nonlinear_arith)
                    requires
                        pe > 0,
                ;
                assert(m == 0 ==> m * pe == 0);
                assert(2 * (m * pe) < pt * pe) by (nonlinear_arith)
                    requires
                        2 * m < pt,
                        pe > 0,
                ;
            }
            return (0, m != 0, false);
        }
        let p: u128 = grid::power_of_two(t);
        let w: u128 = m as u128 / p;
        let rem: u128 = m as u128 % p;
        proof {
            lemma_pow2_pos(t as nat);
            lemma_div_decreases_or_same(m as int, p as int);
            lemma_pow2_strictly_increases(t as nat, 64);
            assert(rem > 0 ==> rem * pe > 0) by (nonlinear_arith)
                requires
                    pe > 0,
            ;
            assert(0 * pe == 0);
            assert(2 * rem >= pt ==> 2 * (rem * pe) >= pt * pe) by (nonlinear_arith)
                requires
                    pe > 0,
            ;
            assert(2 * rem < pt ==> 2 * (rem * pe) < pt * pe) by (nonlinear_arith)
                requires
                    pe > 0,
            ;
        }
        (w as u64, rem != 0, 2 * rem >= p)
    }
}

proof fn lemma_div_decreases_or_same(a: int, b: int)
    requires
        a >= 0,
        b >= 1,
    ensures
        0 <= a / b <= a,
{
    lemma_fundamental_div_mod(a, b);
    assert(0 <= a / b <= a) by (nonlinear_arith)
        requires
            a == b * (a / b) + a % b,
            0 <= a % b < b,
            a >= 0,
            b >= 1,
    ;
}

/// Whole part of the magnitude, the fraction dropped.
pub fn whole_below(f: Format, x: Number) -> (r: u64)
    requires
        !is_nan(f, x),
    ensures
        r == capped(whole(f, x)),
{
    whole_parts(f, x).0
}

/// Smallest whole number not below the magnitude.
pub fn whole_above(f: Format, x: Number) -> (r: u64)
    requires
        !is_nan(f, x),
    ensures
        r == capped(whole_up(f, x)),
{
    let (w, fraction, _) = whole_parts(f, x);
    if fraction {
        w + 1
    } else {
        w
    }
}

/// Whole number nearest to the magnitude, halves going up.
pub fn whole_at_nearest(f: Format, x: Number) -> (r: u64)
    requires
        !is_nan(f, x),
    ensures
        r == capped(whole_nearest(f, x)),
{
    let (w, _, half) = whole_parts(f, x);
    if half {
        w + 1
    } else {
        w
    }
}

/// The integer `v` in the format.
pub fn integer_number(f: Format, negative: bool, v: u64) -> (r: Number)
    ensures
        r == of_integer(f, negative, v as nat),
        r.index <= f.quiet_nan(),
{
    proof {
        lemma2_to64();
        lemma2_to64_rest();
        lemma_pow2_strictly_increases(64, 120);
    }
    round_units(f, negative, v as u128, f.scale_bits())
}

/// A value of one format in the other.
pub fn convert_number(from: Format, to: Format, x: Number) -> (r: Number)
    ensures
        r == converted(from, to, x),
        r.index <= to.quiet_nan(),
{
    let top = from.infinity_index();
    if x.index > top {
        return Number { negative: false, index: to.nan_index() };
    }
    if x.index == top {
        return Number { negative: x.negative, index: to.infinity_index() };
    }
    let (m, e) = split(from, x.index);
    let ghost u = grid::units(from, x.index as nat);
    let ghost n = u * pow2(to.scale());
    let ghost d = pow2(from.scale());
    proof {
        lemma_pow2_pos(from.scale());
        lemma2_to64();
        lemma2_to64_rest();
        lemma_pow2_strictly_increases(53, 120);
    }
    if m == 0 {
        proof {
            assert(n == 0) by (nonlinear_arith)
                requires
                    u == 0,
                    n == u * pow2(to.scale()),
            ;
            lemma_round_zero(to, d);
        }
        return Number { negative: x.negative, index: 0 };
    }
    let q: i32 = e + to.scale_bits() - from.scale_bits();
    proof {
        assert(m * 1 == m);
        assert(m as nat * pow2(e as nat) == u);
        assert(pow2(0) == 1);
        let up = pow2(if q > 0 { q as nat } else { 0 });
        let down = pow2(if q < 0 { (-q) as nat } else { 0 });
        lemma_pow2_adds(e as nat, to.scale());
        assert(pow2((e + to.scale()) as nat) * down == up * d) by {
            let c = pow2((e + to.scale()) as nat);
            assert(c * 1 == c);
            assert(1 * d == d);
            if q >= 0 {
                lemma_pow2_adds(q as nat, from.scale());
                assert(q as nat + from.scale() == (e + to.scale()) as nat);
            } else {
                lemma_pow2_adds((e + to.scale()) as nat, (-q) as nat);
                assert((e + to.scale()) as nat + (-q) as nat == from.scale());
            }
        }
        assert(n * down == m * up * d) by (nonlinear_arith)
            requires
                n == u * pow2(to.scale()),
                u == m * pow2(e as nat),
                pow2((e + to.scale()) as nat) == pow2(e as nat) * pow2(to.scale()),
                pow2((e + to.scale()) as nat) * down == up * d,
        ;
    }
    let index = grid::round_scaled(to, m as u128, q, false, Ghost(n), Ghost(d));
    Number { negative: x.negative, index }
}

} // verus!
