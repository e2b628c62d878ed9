//! Instants and frames, in exact arithmetic.

use crate::audio::export;
use crate::audio::AudioTrack;
use crate::color::lut::identity::close;
use crate::color::scale;
use crate::ieee::double::Double;
use crate::ieee::grid;
use crate::ieee::grid::Format;
use crate::ieee::laws;
use crate::ieee::number;
use crate::ieee::number::Number;
use vstd::arithmetic::div_mod::*;
use vstd::arithmetic::power2::*;
use vstd::prelude::*;

verus! {

/// A value with its sign, in units of the smallest subnormal.
#[verifier::opaque]
pub open spec fn fine_units(x: Double) -> int {
    number::signed_units(Format::Double, x.number())
}

/// 2 to the power `e`, in units.
pub open spec fn power(e: nat) -> int {
    pow2(1074 + e) as int
}

/// 1.0, in units.
pub open spec fn unit() -> int {
    power(0)
}

/// How far rounding carries a value up to 2 to the power `e`: its 2^53rd part, and
/// one unit.
pub open spec fn blur(e: nat) -> int {
    pow2(1021 + e) as int + 1
}

/// A finite value, of no more than 2 to the power `e`.
pub open spec fn spans(x: Double, e: nat) -> bool {
    &&& number::is_finite(Format::Double, x.number())
    &&& -power(e) <= fine_units(x) <= power(e)
}

pub(crate) proof fn lemma_powers(e: nat)
    ensures
        power(e) == pow2(e) * unit(),
        unit() > 0,
        0x20_0000_0000_0000 * (blur(e) - 1) == power(e),
{
    lemma_pow2_pos(1074);
    lemma_pow2_adds(e, 1074);
    lemma_pow2_adds(53, 1021 + e);
    assert(pow2(53) == 0x20_0000_0000_0000) by {
        lemma2_to64_rest();
    }
    assert(pow2(e) * pow2(1074) == pow2(e) * unit());
}

/// Powers of two are values.
proof fn lemma_power_is_value(e: nat) -> (k: nat)
    requires
        e <= 100,
    ensures
        k < Format::Double.infinity(),
        grid::units(Format::Double, k) == pow2(1074 + e),
{
    let f = Format::Double;
    let b = f.binade();
    let k = (1023 + e) * b;
    grid::lemma_units_at(f, 1022 + e, b);
    assert(k == (1022 + e) * b + b) by (nonlinear_arith)
        requires
            k == (1023 + e) * b,
    ;
    lemma_pow2_adds(52, 1022 + e);
    assert(pow2(52) == 0x10_0000_0000_0000) by {
        lemma2_to64_rest();
    }
    assert(k <= 1123 * b) by (nonlinear_arith)
        requires
            k == (1023 + e) * b,
            e <= 100,
    ;
    k
}

/// Rounding `t / d` units.
proof fn lemma_rounded(t: int, d: nat, r: Number, e: nat)
    requires
        d > 0,
        e <= 100,
        -(power(e) * d) <= t <= power(e) * d,
        t < 0 ==> r.negative && r.index == grid::round_magnitude(Format::Double, (-t) as nat, d),
        t > 0 ==> !r.negative && r.index == grid::round_magnitude(Format::Double, t as nat, d),
        t == 0 ==> r.index == 0,
    ensures
        r.index < Format::Double.infinity(),
        -power(e) <= number::signed_units(Format::Double, r) <= power(e),
        close(number::signed_units(Format::Double, r) * d, t, blur(e) * d),
{
    let f = Format::Double;
    let p = power(e);
    lemma_powers(e);
    assert(grid::units(f, 0) == 0);
    let n = (if t < 0 {
        -t
    } else {
        t
    }) as nat;
    let top = lemma_power_is_value(e);
    if t == 0 {
        assert(0 * d == 0);
        assert(blur(e) * d >= 0) by (nonlinear_arith)
            requires
                blur(e) >= 0,
                d > 0,
        ;
    } else {
        laws::law_nearest_exists(f, n, d);
        laws::law_rounding_keeps_values(f, top, d);
        let m = grid::units(f, top) * d;
        assert(n * d <= m * d) by (nonlinear_arith)
            requires
                n <= m,
        ;
        laws::law_rounding_keeps_order(f, n, d, m, d);
        let k = grid::round_magnitude(f, n, d);
        let u = grid::units(f, k);
        grid::lemma_units_increase(f, k, top);
        scale::lemma_relative_in(f, n, d, k);
        let b = 0x10_0000_0000_0000int;
        let w = (u * d) as int;
        assert(u * d * (2 * b) == w * (2 * b));
        assert((u + b) * d <= (2 * b) * (blur(e) * d)) by (nonlinear_arith)
            requires
                u <= p,
                (2 * b) * (blur(e) - 1) == p,
                d > 0,
                b > 0,
        {
            assert((u + b) * d <= (p + 2 * b) * d);
            assert((2 * b) * (blur(e) * d) == ((2 * b) * blur(e)) * d);
            assert((2 * b) * blur(e) == p + 2 * b);
        }
        assert(close(w, n as int, blur(e) * d)) by (nonlinear_arith)
            requires
                close(w * (2 * b), (n as int) * (2 * b), (2 * b) * (blur(e) * d)),
                b > 0,
        ;
        let s = number::signed_units(f, r);
        assert(s * d == if t < 0 { -w } else { w }) by (nonlinear_arith)
            requires
                s == if t < 0 { -(u as int) } else { u as int },
                w == u * d,
        ;
    }
}

pub(crate) proof fn lemma_plus(x: Double, y: Double, e: nat)
    requires
        number::is_finite(Format::Double, x.number()),
        number::is_finite(Format::Double, y.number()),
        -power(e) <= fine_units(x) + fine_units(y) <= power(e),
        e <= 100,
    ensures
        spans(x.plus(y), e),
        close(fine_units(x.plus(y)), fine_units(x) + fine_units(y), blur(e)),
{
    reveal(fine_units);
    lemma_total(x.number(), y.number(), e);
}

pub(crate) proof fn lemma_minus(x: Double, y: Double, e: nat)
    requires
        number::is_finite(Format::Double, x.number()),
        number::is_finite(Format::Double, y.number()),
        -power(e) <= fine_units(x) - fine_units(y) <= power(e),
        e <= 100,
    ensures
        spans(x.minus(y), e),
        close(fine_units(x.minus(y)), fine_units(x) - fine_units(y), blur(e)),
{
    reveal(fine_units);
    lemma_total(x.number(), number::negated(y.number()), e);
}

proof fn lemma_total(x: Number, y: Number, e: nat)
    requires
        number::is_finite(Format::Double, x),
        number::is_finite(Format::Double, y),
        x.index < 0x8000_0000_0000_0000,
        y.index < 0x8000_0000_0000_0000,
        -power(e) <= number::signed_units(Format::Double, x) + number::signed_units(Format::Double, y)
            <= power(e),
        e <= 100,
    ensures
        ({
            let r = Double::of(number::sum(Format::Double, x, y)).number();
            let t = number::signed_units(Format::Double, x) + number::signed_units(Format::Double, y);
            &&& number::is_finite(Format::Double, r)
            &&& -power(e) <= number::signed_units(Format::Double, r) <= power(e)
            &&& close(number::signed_units(Format::Double, r), t, blur(e))
        }),
{
    let f = Format::Double;
    let t = number::signed_units(f, x) + number::signed_units(f, y);
    let n = number::sum(f, x, y);
    assert(grid::units(f, 0) == 0);
    number::lemma_round_zero(f, 1);
    assert(power(e) * 1 == power(e) && blur(e) * 1 == blur(e));
    laws::law_nearest_exists(f, (if t < 0 { -t } else { t }) as nat, 1);
    lemma_rounded(t, 1, n, e);
    assert(Double::of(n).number() == n);
    assert(number::signed_units(f, n) * 1 == number::signed_units(f, n));
}

pub(crate) proof fn lemma_times(x: Double, y: Double, e: nat)
    requires
        number::is_finite(Format::Double, x.number()),
        number::is_finite(Format::Double, y.number()),
        -(power(e) * unit()) <= fine_units(x) * fine_units(y) <= power(e) * unit(),
        e <= 100,
    ensures
        spans(x.times(y), e),
        close(
            fine_units(x.times(y)) * unit(),
            fine_units(x) * fine_units(y),
            blur(e) * unit(),
        ),
{
    reveal(fine_units);
    let f = Format::Double;
    let (a, b) = (x.number(), y.number());
    let (u, v) = (grid::units(f, a.index as nat), grid::units(f, b.index as nat));
    let t = fine_units(x) * fine_units(y);
    let d = pow2(1074);
    lemma_pow2_pos(1074);
    assert(t == if a.negative != b.negative { -(u * v) } else { (u * v) as int }) by (nonlinear_arith)
        requires
            t == fine_units(x) * fine_units(y),
            fine_units(x) == if a.negative { -(u as int) } else { u as int },
            fine_units(y) == if b.negative { -(v as int) } else { v as int },
    ;
    number::lemma_round_zero(f, d);
    laws::law_nearest_exists(f, u * v, d);
    let n = number::product(f, a, b);
    assert(t == 0 ==> u * v == 0);
    lemma_rounded(t, d, n, e);
    assert(Double::of(n).number() == n);
}

pub(crate) proof fn lemma_over(x: Double, y: Double, e: nat)
    requires
        number::is_finite(Format::Double, x.number()),
        number::is_finite(Format::Double, y.number()),
        fine_units(y) > 0,
        -(power(e) * fine_units(y)) <= fine_units(x) * unit() <= power(e) * fine_units(y),
        e <= 100,
    ensures
        spans(x.over(y), e),
        close(
            fine_units(x.over(y)) * fine_units(y),
            fine_units(x) * unit(),
            blur(e) * fine_units(y),
        ),
{
    reveal(fine_units);
    let f = Format::Double;
    let (a, b) = (x.number(), y.number());
    let (u, v) = (grid::units(f, a.index as nat), grid::units(f, b.index as nat));
    let d = pow2(1074);
    lemma_pow2_pos(1074);
    let t = fine_units(x) * unit();
    assert(!b.negative && fine_units(y) == v);
    assert(grid::units(f, 0) == 0);
    assert(b.index != 0);
    assert(t == if a.negative { -(u * d) } else { (u * d) as int }) by (nonlinear_arith)
        requires
            t == fine_units(x) * unit(),
            unit() == d,
            fine_units(x) == if a.negative { -(u as int) } else { u as int },
    ;
    number::lemma_round_zero(f, v);
    laws::law_nearest_exists(f, u * d, v);
    let n = number::quotient(f, a, b);
    lemma_rounded(t, v, n, e);
    assert(Double::of(n).number() == n);
}

/// An integer up to 2 to the power `e` is that value, to within the blur.
pub(crate) proof fn lemma_integer(v: u64, e: nat)
    requires
        v <= pow2(e),
        e <= 100,
    ensures
        spans(Double::from_u64(v), e),
        fine_units(Double::from_u64(v)) >= 0,
        close(fine_units(Double::from_u64(v)), v * unit(), blur(e)),
{
    reveal(fine_units);
    let f = Format::Double;
    let t = v * unit();
    lemma_powers(e);
    assert(0 <= t <= power(e)) by (nonlinear_arith)
        requires
            t == v * unit(),
            v <= pow2(e),
            unit() > 0,
            power(e) == pow2(e) * unit(),
    ;
    number::lemma_round_zero(f, 1);
    laws::law_nearest_exists(f, t as nat, 1);
    let n = number::of_integer(f, false, v as nat);
    assert(power(e) * 1 == power(e) && blur(e) * 1 == blur(e));
    assert((v as nat) * pow2(1074) == t);
    lemma_rounded(t, 1, n, e);
    assert(Double::of(n).number() == n);
    assert(number::signed_units(f, n) * 1 == number::signed_units(f, n));
}

/// The nearest integer is no more than half away.
pub(crate) proof fn lemma_nearest(x: Double, e: nat)
    requires
        spans(x, e),
        e <= 60,
    ensures
        close(2 * (x.round_i64() * unit()), 2 * fine_units(x), unit()),
{
    reveal(fine_units);
    let f = Format::Double;
    let u = grid::units(f, x.number().index as nat) as int;
    let d = unit();
    lemma_powers(e);
    lemma_fundamental_div_mod(u, d);
    lemma_mod_bound(u, d);
    let (q, r) = (u / d, u % d);
    lemma_pow2_strictly_increases_or_equal(e, 60);
    lemma2_to64_rest();
    assert(0 <= q <= pow2(e)) by (nonlinear_arith)
        requires
            u == d * q + r,
            0 <= r < d,
            0 <= u <= pow2(e) * d,
            d > 0,
    ;
    let w = number::whole_nearest(f, x.number());
    assert(w <= q + 1);
    assert((q + 1) * d == d * q + d && q * d == d * q) by (nonlinear_arith);
    assert(-w * d == -(w * d)) by (nonlinear_arith);
}

proof fn lemma_pow2_strictly_increases_or_equal(a: nat, b: nat)
    requires
        a <= b,
    ensures
        pow2(a) <= pow2(b),
{
    if a < b {
        lemma_pow2_strictly_increases(a, b);
    }
}

/// What a rate makes of a time: their product, but for a thousandth of a frame.
proof fn lemma_frames(s: Double, exact: int, rate: u32)
    requires
        spans(s, 21),
        close(fine_units(s), exact, blur(21)),
        rate <= 0x10_0000,
    ensures
        ({
            let p = s.times(Double::from_u64(rate as u64));
            &&& spans(p, 42)
            &&& 1000 * (fine_units(p) - exact * rate) <= unit()
            &&& 1000 * (exact * rate - fine_units(p)) <= unit()
        }),
{
    lemma2_to64();
    lemma_powers(0);
    lemma_powers(20);
    lemma_powers(21);
    lemma_powers(42);
    assert(pow2(42) == 0x400_0000_0000) by {
        lemma2_to64_rest();
    }
    let r = Double::from_u64(rate as u64);
    lemma_integer(rate as u64, 20);
    let (a, b, w, n) = (fine_units(s), fine_units(r), unit(), rate as int);
    let (b20, b21, b42) = (blur(20), blur(21), blur(42));
    let x = a * b;
    assert(-(power(42) * w) <= x <= power(42) * w) by (nonlinear_arith)
        requires
            x == a * b,
            -power(21) <= a <= power(21),
            0 <= b <= power(20),
            power(21) == 0x20_0000 * w,
            power(20) == 0x10_0000 * w,
            power(42) == 0x400_0000_0000 * w,
            w > 0,
    {
        assert(-(power(21) * power(20)) <= a * b <= power(21) * power(20));
        assert(power(21) * power(20) == 0x200_0000_0000 * (w * w));
        assert(power(42) * w == 0x400_0000_0000 * (w * w));
    }
    lemma_times(s, r, 42);
    let p = fine_units(s.times(r));
    // The blurs are small against one.
    lemma_blurs();
    // p w is a b, and that is exact times n w, each but for a little.
    let (i, j, k) = (p * w - a * b, a - exact, b - n * w);
    assert(p * w == (exact * n) * w + i + a * k + (j * n) * w) by (nonlinear_arith)
        requires
            i == p * w - a * b,
            j == a - exact,
            k == b - n * w,
    ;
    assert(-(b42 * w) <= i <= b42 * w);
    assert(-((0x20_0000 * b20) * w) <= a * k <= (0x20_0000 * b20) * w) by (nonlinear_arith)
        requires
            -(0x20_0000 * w) <= a <= 0x20_0000 * w,
            -b20 <= k <= b20,
            w > 0,
            b20 >= 0,
    {
        assert(-((0x20_0000 * w) * b20) <= a * k <= (0x20_0000 * w) * b20);
    }
    assert(-((0x10_0000 * b21) * w) <= (j * n) * w <= (0x10_0000 * b21) * w) by (nonlinear_arith)
        requires
            -b21 <= j <= b21,
            0 <= n <= 0x10_0000,
            w > 0,
            b21 >= 0,
    {
        assert(-(b21 * 0x10_0000) <= j * n <= b21 * 0x10_0000);
    }
    let e = b42 + 0x20_0000 * b20 + 0x10_0000 * b21;
    let d = p - exact * n;
    assert(-(e * w) <= d * w <= e * w) by (nonlinear_arith)
        requires
            d == p - exact * n,
            p * w == (exact * n) * w + i + a * k + (j * n) * w,
            -(b42 * w) <= i <= b42 * w,
            -((0x20_0000 * b20) * w) <= a * k <= (0x20_0000 * b20) * w,
            -((0x10_0000 * b21) * w) <= (j * n) * w <= (0x10_0000 * b21) * w,
            e == b42 + 0x20_0000 * b20 + 0x10_0000 * b21,
    ;
    assert(-e <= d <= e) by (nonlinear_arith)
        requires
            -(e * w) <= d * w <= e * w,
            w > 0,
    ;
}

proof fn lemma_blurs()
    ensures
        1000 * (blur(42) + 0x20_0000 * blur(20) + 0x10_0000 * blur(21)) <= unit(),
        blur(20) >= 0,
        blur(21) >= 0,
{
    lemma_powers(20);
    lemma_powers(21);
    lemma_powers(42);
    lemma2_to64();
    assert(pow2(42) == 0x400_0000_0000) by {
        lemma2_to64_rest();
    }
    lemma_pow2_pos(1041);
    lemma_pow2_pos(1042);
    assert(unit() >= 0x1_0000_0000_0000_0000) by {
        lemma_pow2_strictly_increases(64, 1074);
    }
}

/// An instant of the video is the audio frame at the shifted time: the nearest one
/// to the sum of the instant and the offset, times the rate, but for a thousandth
/// of a frame.
pub proof fn law_frame_is_the_shifted_time(t_video_s: Double, offset_s: Double, sample_rate: u32)
    requires
        spans(t_video_s, 20),
        spans(offset_s, 20),
        sample_rate <= 0x10_0000,
    ensures
        ({
            let frame = export::frame_at(t_video_s, offset_s, sample_rate);
            let exact = (fine_units(t_video_s) + fine_units(offset_s)) * sample_rate;
            &&& 1000 * (frame * unit() - exact) <= 501 * unit()
            &&& 1000 * (exact - frame * unit()) <= 501 * unit()
        }),
{
    lemma2_to64();
    lemma_powers(20);
    lemma_powers(21);
    lemma_plus(t_video_s, offset_s, 21);
    let s = t_video_s.plus(offset_s);
    lemma_frames(s, fine_units(t_video_s) + fine_units(offset_s), sample_rate);
    lemma_nearest(s.times(Double::from_u64(sample_rate as u64)), 42);
}

/// A stretch of video calls for as many frames as its length times the rate, to the
/// nearest, and for none where it ends before it starts.
pub proof fn law_stretch_calls_for_its_length(t_in_s: Double, t_out_s: Double, sample_rate: u32)
    requires
        spans(t_in_s, 20),
        spans(t_out_s, 20),
        sample_rate <= 0x10_0000,
    ensures
        ({
            let n = export::frames_wanted(t_in_s, t_out_s, sample_rate);
            let exact = (fine_units(t_out_s) - fine_units(t_in_s)) * sample_rate;
            &&& 1000 * (n * unit() - (if exact < 0 { 0 } else { exact })) <= 501 * unit()
            &&& 1000 * (exact - n * unit()) <= 501 * unit()
        }),
{
    lemma2_to64();
    lemma_powers(0);
    lemma_powers(20);
    lemma_powers(21);
    lemma_minus(t_out_s, t_in_s, 21);
    let s = t_out_s.minus(t_in_s);
    lemma_frames(s, fine_units(t_out_s) - fine_units(t_in_s), sample_rate);
    let p = s.times(Double::from_u64(sample_rate as u64));
    lemma_nearest(p, 42);
    let r = p.round_i64() as int;
    assert(r <= 0 ==> r * unit() <= 0) by (nonlinear_arith)
        requires
            unit() > 0,
    ;
    assert(0 * unit() == 0);
}

} // verus!
