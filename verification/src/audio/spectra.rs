//! What is measured on spectra, in exact arithmetic.

use crate::audio::closeness;
use crate::audio::closeness::{near, positive};
use crate::audio::features;
use crate::audio::laws as audio_laws;
use crate::audio::measures;
use crate::audio::order;
use crate::audio::rising::exact_total;
use crate::audio::signal;
use crate::audio::sync;
use crate::audio::takeoff;
use crate::color::bounded;
use crate::color::drift;
use crate::color::drift::{grain, quarter, units_of, whole, within};
use crate::color::lut::identity::close;
use crate::ieee::laws;
use crate::ieee::single::Single;
use vstd::arithmetic::div_mod::*;
use vstd::arithmetic::power2::*;
use vstd::prelude::*;

verus! {

/// The windows of a spectrum step through the signal by 512 samples: the last one
/// still fits, and one more would not.
pub proof fn law_windows_fill_the_signal(length: nat)
    ensures
        ({
            let n = features::window_count(length) as int;
            &&& length < 2048 ==> n == 0
            &&& length >= 2048 ==> n > 0 && (n - 1) * 512 + 2048 <= length < n * 512 + 2048
        }),
{
    if length >= 2048 {
        let d = length - 2048;
        lemma_fundamental_div_mod(d, 512);
        lemma_mod_bound(d, 512);
    }
}

/// So do those of the take-off, by the samples of a point: each ends before the
/// recording does.
pub proof fn law_takeoff_windows_fill_the_recording(length: nat, hop: nat)
    requires
        hop > 0,
    ensures
        ({
            let n = takeoff::window_count(length, hop) as int;
            &&& length <= 2048 ==> n == 0
            &&& length > 2048 ==> n > 0 && (n - 1) * hop + 2048 < length <= n * hop + 2048
        }),
{
    if length > 2048 {
        let (d, h) = (length - 2049, hop as int);
        lemma_fundamental_div_mod(d, h);
        lemma_mod_bound(d, h);
        let q = d / h;
        assert((q + 1) * h == h * q + h && q * h == h * q) by (nonlinear_arith);
    }
}

/// The Hann window is half of what its cosine leaves of one.
pub proof fn law_hann_is_the_raised_cosine(cosine: Single)
    requires
        within(cosine, -4, 4),
    ensures
        within(features::hann(cosine), 0, 4),
        close(2 * units_of(features::hann(cosine)), whole() - units_of(cosine), 20 * grain()),
{
    let (w, g, q) = (whole(), grain(), quarter());
    let half = Single { bits: 0x3f00_0000 };
    drift::lemma_measures();
    drift::lemma_ends();
    bounded::lemma_fractions();
    assert(laws::is_finite(half)) by {
        assert(half.number().index < 0x7f80_0000);
    }
    drift::lemma_minus(Single::one(), cosine, 0, 8, 8);
    let d = Single::one().minus(cosine);
    drift::lemma_scaled(half, d, 0, 2, 8, 0, 4, 4);
    let (u, v) = (units_of(half.times(d)), units_of(d));
    assert(close(2 * u, v, 10 * g)) by (nonlinear_arith)
        requires
            close(u * w, (2 * q) * v, ((4 + 1) * g) * w),
            w == 4 * q,
            w > 0,
    ;
}

/// The power of a line is the sum of the squares of its parts.
pub proof fn law_power_is_the_square(line: (Single, Single))
    requires
        within(line.0, -400, 400) && within(line.1, -400, 400),
    ensures
        ({
            let (x, y) = (units_of(line.0), units_of(line.1));
            close(
                units_of(features::power(line)) * whole(),
                x * x + y * y,
                (160_002 * grain()) * whole(),
            )
        }),
{
    let (w, g) = (whole(), grain());
    drift::lemma_measures();
    drift::lemma_multiplied(line.0, line.0, 400, 400, 40_000);
    drift::lemma_multiplied(line.1, line.1, 400, 400, 40_000);
    let (a, b) = (line.0.times(line.0), line.1.times(line.1));
    drift::lemma_plus(a, b, -80_000, 80_000, 80_000);
    let r = units_of(a.plus(b));
    let k = g * w;
    assert(((40_000 + 1) * g) * w == 40_001 * k && (160_002 * g) * w == 160_002 * k) by (nonlinear_arith)
        requires
            k == g * w,
    ;
    assert(close(r * w, units_of(a) * w + units_of(b) * w, 80_000 * k)) by (nonlinear_arith)
        requires
            close(r, units_of(a) + units_of(b), 80_000 * g),
            k == g * w,
            w > 0,
    ;
}

/// The energy of a window is the sum of the powers of the band's lines, no other,
/// and the floor of the logarithm.
pub proof fn law_energy_is_the_sum(power: Seq<Single>, from: nat, to: nat)
    requires
        from <= to <= power.len(),
        to - from <= 1024,
        forall|i: int| from <= i < to ==> within(#[trigger] power[i], -4, 4),
    ensures
        ({
            let n = to - from;
            close(
                units_of(features::window_energy(power, from, to)),
                exact_total(power.subrange(from as int, to as int)) + units_of(
                    Single { bits: 0x3089_705f },
                ),
                (2 * (n * (n + 1)) + 4 * n + 1) * grain(),
            )
        }),
{
    let (g, q) = (grain(), quarter());
    let n = to - from;
    let part = power.subrange(from as int, to as int);
    drift::lemma_measures();
    assert forall|i: int| 0 <= i < part.len() implies within(#[trigger] part[i], -4, 4) by {
        assert(part[i] == power[from + i]);
    }
    measures::lemma_total(part);
    let (x, floor) = (signal::total(part), Single { bits: 0x3089_705f });
    assert(laws::is_finite(floor) && 0 <= units_of(floor) <= q) by {
        reveal(units_of);
        assert(floor.number().index == 0x3089_705f && !floor.number().negative);
        bounded::lemma_fractions();
        crate::ieee::grid::lemma_units_increase(
            crate::ieee::grid::Format::Single,
            0x3089_705f,
            0x3e80_0000,
        );
        let quart = Single { bits: 0x3e80_0000 };
        assert(quart.number().index == 0x3e80_0000 && !quart.number().negative);
    }
    assert((4 * n + 1) * q == (4 * n) * q + q && -(4 * n + 1) * q == -(4 * n) * q - q) by (nonlinear_arith);
    drift::lemma_plus(x, floor, -(4 * n + 1), 4 * n + 1, 4 * n + 1);
    assert((2 * (n * (n + 1)) + 4 * n + 1) * g == (2 * (n * (n + 1))) * g + (4 * n + 1) * g)
        by (nonlinear_arith);
}

/// A whole number, as a value.
proof fn lemma_number(v: u64)
    requires
        1 <= v < 0x100_0000,
    ensures
        positive(Single::from_u64(v)),
        units_of(Single::from_u64(v)) == v * whole(),
{
    drift::lemma_measures();
    laws::law_small_integers_are_exact(v);
    reveal(units_of);
    assert(v * whole() > 0) by (nonlinear_arith)
        requires
            v >= 1,
            whole() > 0,
    ;
}

/// The angle of a frequency from one sample to the next is 2 pi times the frequency
/// over the rate.
pub proof fn law_angle_is_the_part_of_a_turn(freq: Single, sample_rate: u32)
    requires
        positive(freq),
        whole() <= units_of(freq) <= 0x10_0000 * whole(),
        1 <= sample_rate <= 0x10_0000,
    ensures
        near(
            (10_000_000 * units_of(takeoff::angle(freq, sample_rate))) * sample_rate,
            62_831_853 * units_of(freq),
            10,
        ),
{
    let (w, f, r) = (whole(), units_of(freq), sample_rate as int);
    let n = Single { bits: 0x4500_0000 };
    drift::lemma_measures();
    assert(w >= 0x1_0000_0000_0000_0000) by {
        lemma2_to64();
        lemma_pow2_strictly_increases(64, 149);
    }
    assert(positive(n) && units_of(n) == 2048 * w) by {
        reveal(units_of);
        lemma2_to64();
        assert(n.number().index == 0x4500_0000 && !n.number().negative);
        assert(0x4500_0000nat / 0x80_0000nat == 138 && 0x4500_0000nat % 0x80_0000nat == 0);
        lemma_pow2_adds(12, 137);
        assert(0x80_0000 * pow2(137) == 2048 * (4096 * pow2(137)));
    }
    lemma_number(sample_rate as u64);
    let rate = Single::from_u64(sample_rate as u64);
    // k is f times 2048 over the rate.
    assert(f * (2048 * w) == (2048 * f) * w) by (nonlinear_arith);
    assert(0x100_0000 * w <= (2048 * f) * w <= closeness::far() * w) by (nonlinear_arith)
        requires
            w <= f <= 0x10_0000 * w,
            w >= 0x1_0000_0000_0000_0000,
            closeness::far() == 0x1000_0000_0000_0000 * w,
    ;
    closeness::lemma_times(freq, n);
    let a = freq.times(n);
    let ua = units_of(a);
    closeness::lemma_cancel(ua, 2048 * f, 1, w);
    closeness::lemma_half(ua, 2048 * f, 1);
    assert(0x100_0000 * (r * w) <= ua * w <= closeness::far() * (r * w)) by (nonlinear_arith)
        requires
            2 * ua >= 2048 * f,
            ua <= 4096 * f,
            w <= f <= 0x10_0000 * w,
            1 <= r <= 0x10_0000,
            w >= 0x1_0000_0000_0000_0000,
            closeness::far() == 0x1000_0000_0000_0000 * w,
    {
        assert(ua >= 0x10_0000_0000_0000);
        assert(r * w <= 0x10_0000 * w);
        assert(ua <= 0x1_0000_0000 * w);
        assert(closeness::far() * (r * w) >= closeness::far() * w);
    }
    closeness::lemma_over(a, rate);
    let k = a.over(rate);
    let uk = units_of(k);
    assert(uk * (r * w) == (uk * r) * w) by (nonlinear_arith);
    closeness::lemma_cancel(uk * r, ua, 1, w);
    closeness::lemma_chain(uk * r, ua, 2048 * f, 1, 1);
    closeness::lemma_half(uk * r, 2048 * f, 3);
    // Times a turn, over 2048.
    let turn = Single { bits: 0x40c9_0fdb };
    closeness::lemma_turn();
    let t = units_of(turn);
    assert(w <= 1024 * uk && uk <= 0x1_0000_0000 * w) by (nonlinear_arith)
        requires
            2 * (uk * r) >= 2048 * f,
            uk * r <= 4096 * f,
            w <= f <= 0x10_0000 * w,
            1 <= r <= 0x10_0000,
            uk > 0,
            w > 0,
    {
        assert(uk * 0x10_0000 >= uk * r);
        assert(uk * r >= uk);
    }
    assert(0x100_0000 * w <= t * uk <= closeness::far() * w) by (nonlinear_arith)
        requires
            w <= t <= 8 * w,
            w <= 1024 * uk,
            uk <= 0x1_0000_0000 * w,
            w >= 0x1_0000_0000_0000_0000,
            closeness::far() == 0x1000_0000_0000_0000 * w,
    {
        assert(w * uk <= t * uk <= (8 * w) * uk);
        assert(1024 * (w * uk) >= w * w);
        assert((8 * w) * uk <= (8 * w) * (0x1_0000_0000 * w));
    }
    closeness::lemma_times(turn, k);
    let b = turn.times(k);
    let ub = units_of(b);
    closeness::lemma_half(ub * w, t * uk, 1);
    assert(0x100_0000 * (2048 * w) <= ub * w <= closeness::far() * (2048 * w)) by (nonlinear_arith)
        requires
            2 * (ub * w) >= t * uk,
            ub * w <= 2 * (t * uk),
            w <= t <= 8 * w,
            w <= 1024 * uk,
            uk <= 0x1_0000_0000 * w,
            w >= 0x1_0000_0000_0000_0000,
            closeness::far() == 0x1000_0000_0000_0000 * w,
    {
        assert(w * uk <= t * uk <= (8 * w) * uk);
        assert(1024 * (w * uk) >= w * w);
        assert((8 * w) * uk <= (8 * w) * (0x1_0000_0000 * w));
        assert(w * w >= 0x1_0000_0000_0000_0000 * w);
    }
    closeness::lemma_over(b, n);
    let angle = b.over(n);
    assert(angle == takeoff::angle(freq, sample_rate));
    let u = units_of(angle);
    assert(u * (2048 * w) == (2048 * u) * w) by (nonlinear_arith);
    closeness::lemma_cancel(2048 * u, ub, 1, w);
    lemma_turned(u, ub, uk, f, t, r, w);
}

proof fn lemma_turned(u: int, b: int, k: int, f: int, t: int, r: int, w: int)
    requires
        near(2048 * u, b, 1),
        near(b * w, t * k, 1),
        near(k * r, 2048 * f, 3),
        near(10_000_000 * t, 62_831_853 * w, 1),
        u > 0 && b > 0 && k > 0 && f > 0 && t > 0 && r > 0 && w > 0,
    ensures
        near((10_000_000 * u) * r, 62_831_853 * f, 10),
{
    let m = 10_000_000int;
    // 2048 u w is t k.
    closeness::lemma_multiple(2048 * u, b, 1, w);
    closeness::lemma_chain((2048 * u) * w, b * w, t * k, 1, 1);
    // Times ten million r.
    let c = m * r;
    closeness::lemma_multiple((2048 * u) * w, t * k, 3, c);
    assert(k * r >= 0) by (nonlinear_arith)
        requires
            k > 0,
            r > 0,
    ;
    closeness::lemma_product(m * t, 62_831_853 * w, 1, k * r, 2048 * f, 3);
    assert((t * k) * c == (m * t) * (k * r)) by (nonlinear_arith)
        requires
            c == m * r,
    ;
    closeness::lemma_chain(((2048 * u) * w) * c, (t * k) * c, (62_831_853 * w) * (2048 * f), 3, 5);
    let d = 2048 * w;
    assert(((2048 * u) * w) * c == ((m * u) * r) * d && (62_831_853 * w) * (2048 * f) == (62_831_853 * f)
        * d) by (nonlinear_arith)
        requires
            c == m * r,
            d == 2048 * w,
    ;
    closeness::lemma_cancel((m * u) * r, 62_831_853 * f, 9, d);
}

/// 0.6 and 1.4, as the band is made of them.
proof fn lemma_shares()
    ensures
        ({
            let width = Single { bits: features::AUTO_BAND_WIDTH };
            let (a, b) = (Single::one().minus(width), Single::one().plus(width));
            &&& positive(a) && positive(b)
            &&& near(10 * units_of(a), 6 * whole(), 3)
            &&& near(10 * units_of(b), 14 * whole(), 3)
            &&& units_of(a) <= 2 * whole() && units_of(b) <= 4 * whole()
            &&& whole() <= 4 * units_of(a) && whole() <= 4 * units_of(b)
        }),
{
    let width = Single { bits: features::AUTO_BAND_WIDTH };
    let (w, g) = (whole(), grain());
    drift::lemma_measures();
    drift::lemma_ends();
    assert(g >= 0x100_0000) by {
        lemma2_to64();
        lemma_pow2_strictly_increases(24, 123);
    }
    assert(laws::is_finite(width) && units_of(width) == 26_843_546 * g) by {
        reveal(units_of);
        lemma2_to64();
        assert(width.number().index == 0x3ecc_cccd && !width.number().negative);
        assert(0x3ecc_cccdnat / 0x80_0000nat == 125 && 0x3ecc_cccdnat % 0x80_0000nat == 0x4c_cccd);
        lemma_pow2_unfold(124);
        let h = pow2(123) as int;
        assert((0x80_0000 + 0x4c_cccd) * (2 * h) == 26_843_546 * h) by (nonlinear_arith);
    }
    closeness::lemma_minus(Single::one(), width);
    closeness::lemma_plus(Single::one(), width);
    let (a, b) = (units_of(Single::one().minus(width)), units_of(Single::one().plus(width)));
    let u = units_of(width);
    closeness::lemma_multiple(a, w - u, 1, 10);
    closeness::lemma_multiple(b, w + u, 1, 10);
    closeness::lemma_chain(a * 10, (w - u) * 10, 6 * w, 1, 1);
    closeness::lemma_chain(b * 10, (w + u) * 10, 14 * w, 1, 1);
}

/// A value times a share, counted in parts.
proof fn lemma_share(hz: Single, a: Single, f: int, n: int)
    requires
        positive(hz),
        positive(a),
        near(2048 * units_of(hz), f * whole(), 3),
        near(10 * units_of(a), n * whole(), 3),
        0 < f,
        0 < n,
        whole() <= 4096 * units_of(hz),
        units_of(hz) <= 0x100_0000_0000 * whole(),
        units_of(a) <= 4 * whole(),
        whole() <= 4 * units_of(a),
    ensures
        near(20_480 * units_of(hz.times(a)), (n * f) * whole(), 9),
{
    let w = whole();
    let (x, y) = (units_of(hz), units_of(a));
    drift::lemma_measures();
    assert(w >= 0x1_0000_0000_0000_0000) by {
        lemma2_to64();
        lemma_pow2_strictly_increases(64, 149);
    }
    assert(0x100_0000 * w <= x * y <= closeness::far() * w) by (nonlinear_arith)
        requires
            w <= 4096 * x,
            x <= 0x100_0000_0000 * w,
            y <= 4 * w,
            w <= 4 * y,
            w >= 0x1_0000_0000_0000_0000,
            closeness::far() == 0x1000_0000_0000_0000 * w,
    {
        assert(w * w <= (4096 * x) * (4 * y));
        assert((4096 * x) * (4 * y) == 16384 * (x * y));
        assert(w * w >= 0x1_0000_0000_0000_0000 * w);
        assert(x * y <= (0x100_0000_0000 * w) * (4 * w));
    }
    closeness::lemma_times(hz, a);
    let r = units_of(hz.times(a));
    closeness::lemma_product(2048 * x, f * w, 3, 10 * y, n * w, 3);
    closeness::lemma_multiple(r * w, x * y, 1, 20_480);
    assert((x * y) * 20_480 == (2048 * x) * (10 * y) && (r * w) * 20_480 == (20_480 * r) * w && (f * w) * (n
        * w) == ((n * f) * w) * w) by (nonlinear_arith);
    closeness::lemma_chain((20_480 * r) * w, (2048 * x) * (10 * y), ((n * f) * w) * w, 1, 7);
    closeness::lemma_cancel(20_480 * r, (n * f) * w, 9, w);
}

/// The distance of two lines is the rate over 2048.
proof fn lemma_spacing(sample_rate: u32)
    requires
        1 <= sample_rate <= 0x10_0000,
    ensures
        positive(features::line_spacing(sample_rate)),
        near(2048 * units_of(features::line_spacing(sample_rate)), sample_rate * whole(), 1),
{
    let (w, r) = (whole(), sample_rate as int);
    drift::lemma_measures();
    lemma_number(sample_rate as u64);
    lemma_number(2048);
    let (x, y) = (Single::from_u64(sample_rate as u64), Single::from_u64(2048));
    assert(w >= 0x1_0000_0000_0000_0000) by {
        lemma2_to64();
        lemma_pow2_strictly_increases(64, 149);
    }
    assert(0x100_0000 * (2048 * w) <= (r * w) * w <= closeness::far() * (2048 * w)) by (nonlinear_arith)
        requires
            1 <= r <= 0x10_0000,
            w >= 0x1_0000_0000_0000_0000,
            closeness::far() == 0x1000_0000_0000_0000 * w,
    {
        assert(w * w >= 0x1_0000_0000_0000_0000 * w);
        assert((r * w) * w == r * (w * w));
        assert(r * (w * w) >= w * w);
        assert(r * (w * w) <= 0x10_0000 * (w * w));
    }
    closeness::lemma_over(x, y);
    let s = units_of(x.over(y));
    assert(s * (2048 * w) == (2048 * s) * w) by (nonlinear_arith);
    closeness::lemma_cancel(2048 * s, r * w, 1, w);
}

/// The search for a band starts at 80 Hz: at the first line whose number times the
/// rate over 2048 reaches that.
pub proof fn law_search_starts_at_eighty(sample_rate: u32)
    requires
        1 <= sample_rate <= 0x10_0000,
    ensures
        ({
            let (from, r) = (features::first_line(sample_rate) as int, sample_rate as int);
            &&& from >= 1
            &&& 0x40_0000 * (from * r) >= (0x40_0000 - 4) * 163_840
            &&& 0x40_0000 * ((from - 1) * r) <= (0x40_0000 + 4) * 163_840
        }),
{
    let (w, r) = (whole(), sample_rate as int);
    drift::lemma_measures();
    lemma_spacing(sample_rate);
    assert(w >= 0x1_0000_0000_0000_0000) by {
        lemma2_to64();
        lemma_pow2_strictly_increases(64, 149);
    }
    let spacing = features::line_spacing(sample_rate);
    let least = Single { bits: 0x42a0_0000 };
    assert(positive(least) && units_of(least) == 80 * w) by {
        reveal(units_of);
        lemma2_to64();
        assert(least.number().index == 0x42a0_0000 && !least.number().negative);
        assert(0x42a0_0000nat / 0x80_0000nat == 133 && 0x42a0_0000nat % 0x80_0000nat == 0x20_0000);
        lemma_pow2_adds(17, 132);
        let h = pow2(132) as int;
        assert((0x80_0000 + 0x20_0000) * h == 80 * (0x2_0000 * h)) by (nonlinear_arith);
    }
    let s = units_of(spacing);
    closeness::lemma_half(2048 * s, r * w, 1);
    assert(0x100_0000 * s <= (80 * w) * w <= closeness::far() * s) by (nonlinear_arith)
        requires
            2 * (2048 * s) >= r * w,
            2048 * s <= 2 * (r * w),
            1 <= r <= 0x10_0000,
            w >= 0x1_0000_0000_0000_0000,
            closeness::far() == 0x1000_0000_0000_0000 * w,
    {
        assert(r * w >= w && r * w <= 0x10_0000 * w);
        assert(4096 * s >= w);
        assert(s <= 1024 * w);
        assert(w * w >= 0x1_0000_0000_0000_0000 * w);
        assert(closeness::far() * s == 0x1000_0000_0000_0000 * (w * s));
        assert(4096 * (w * s) >= w * w);
    }
    closeness::lemma_over(least, spacing);
    let x = least.over(spacing);
    let u = units_of(x);
    // u r is 163840 w.
    closeness::lemma_multiple(u * s, (80 * w) * w, 1, 2048);
    closeness::lemma_multiple(2048 * s, r * w, 1, u);
    closeness::lemma_flip((2048 * s) * u, (r * w) * u, 1);
    assert((u * s) * 2048 == (2048 * s) * u && ((80 * w) * w) * 2048 == (163_840 * w) * w && (r * w) * u
        == (u * r) * w) by (nonlinear_arith);
    closeness::lemma_chain((u * r) * w, (2048 * s) * u, (163_840 * w) * w, 2, 1);
    closeness::lemma_cancel(u * r, 163_840 * w, 4, w);
    // The whole number above it.
    assert(x.number().index < 0x7f80_0000 && !x.number().negative && u == crate::ieee::grid::units(
        crate::ieee::grid::Format::Single,
        x.number().index as nat,
    )) by {
        reveal(units_of);
    }
    lemma_fundamental_div_mod(u, w);
    lemma_mod_bound(u, w);
    let q = u / w;
    closeness::lemma_half(u * r, 163_840 * w, 4);
    assert(0 <= q <= 0x10_0000) by (nonlinear_arith)
        requires
            u == w * q + u % w,
            0 <= u % w < w,
            u * r <= 327_680 * w,
            r >= 1,
            u > 0,
            w > 0,
    {
        assert(u <= u * r);
    }
    let from = features::first_line(sample_rate) as int;
    assert(from == if u % w == 0 { q } else { q + 1 });
    assert(from * w >= u && (from - 1) * w < u) by (nonlinear_arith)
        requires
            u == w * q + u % w,
            0 <= u % w < w,
            from == if u % w == 0 { q } else { q + 1 },
    ;
    assert(from >= 1) by (nonlinear_arith)
        requires
            from * w >= u,
            u > 0,
            w > 0,
    ;
    assert(0x40_0000 * (from * r) >= (0x40_0000 - 4) * 163_840) by (nonlinear_arith)
        requires
            from * w >= u,
            (u * r - 163_840 * w) * 0x40_0000 >= -(4 * (163_840 * w)),
            r >= 1,
            w > 0,
    {
        assert((from * w) * r >= u * r);
        assert((from * w) * r == (from * r) * w);
        assert((0x40_0000 * (from * r)) * w >= ((0x40_0000 - 4) * 163_840) * w);
    }
    assert(0x40_0000 * ((from - 1) * r) <= (0x40_0000 + 4) * 163_840) by (nonlinear_arith)
        requires
            (from - 1) * w < u,
            (u * r - 163_840 * w) * 0x40_0000 <= 4 * (163_840 * w),
            r >= 1,
            w > 0,
    {
        assert(((from - 1) * w) * r <= u * r);
        assert(((from - 1) * w) * r == ((from - 1) * r) * w);
        assert((0x40_0000 * ((from - 1) * r)) * w <= ((0x40_0000 + 4) * 163_840) * w);
    }
}

/// The band that is found lies around the highest line of the spectrum, from six
/// tenths of its frequency to fourteen tenths; the frequency of a line is its number
/// times the rate over 2048.
pub proof fn law_band_is_around_the_peak(spectrum: Seq<Single>, sample_rate: u32) -> (b: int)
    requires
        features::dominant_band(spectrum, sample_rate) is Some,
        1 <= sample_rate <= 0x10_0000,
        spectrum.len() <= 0x10_0000,
        order::all_numbers(spectrum),
    ensures
        ({
            let (lo, hi) = features::dominant_band(spectrum, sample_rate)->Some_0;
            let f = b * sample_rate;
            &&& features::first_line(sample_rate) <= b < spectrum.len()
            &&& forall|j: int|
                features::first_line(sample_rate) <= j < spectrum.len() ==> (#[trigger] spectrum[j]).at_most(
                    spectrum[b],
                )
            &&& near(20_480 * units_of(lo), (6 * f) * whole(), 9)
            &&& near(20_480 * units_of(hi), (14 * f) * whole(), 9)
        }),
{
    let from = features::first_line(sample_rate);
    law_search_starts_at_eighty(sample_rate);
    let part = spectrum.skip(from as int);
    let w = whole();
    drift::lemma_measures();
    assert(w >= 0x1_0000_0000_0000_0000) by {
        lemma2_to64();
        lemma_pow2_strictly_increases(64, 149);
    }
    assert forall|i: int| 0 <= i < part.len() implies !(#[trigger] part[i]).nan() by {
        assert(part[i] == spectrum[from + i]);
    }
    audio_laws::law_summit_is_highest(part, 0);
    let b = from + sync::summit(part);
    assert forall|j: int| from <= j < spectrum.len() implies (#[trigger] spectrum[j]).at_most(spectrum[b]) by {
        audio_laws::law_summit_is_highest(part, j - from);
        assert(part[j - from] == spectrum[j]);
        assert(part[sync::summit(part) as int] == spectrum[b]);
    }
    lemma_spacing(sample_rate);
    lemma_number(b as u64);
    let (n, spacing) = (Single::from_u64(b as u64), features::line_spacing(sample_rate));
    let (s, r) = (units_of(spacing), sample_rate as int);
    closeness::lemma_half(2048 * s, r * w, 1);
    assert(0x100_0000 * w <= (b * w) * s <= closeness::far() * w) by (nonlinear_arith)
        requires
            1 <= b <= 0x10_0000,
            2 * (2048 * s) >= r * w,
            2048 * s <= 2 * (r * w),
            1 <= r <= 0x10_0000,
            w >= 0x1_0000_0000_0000_0000,
            closeness::far() == 0x1000_0000_0000_0000 * w,
    {
        assert(r * w >= w && r * w <= 0x10_0000 * w);
        assert(4096 * s >= w);
        assert(s <= 1024 * w);
        assert((b * w) * s == (b * s) * w);
        assert(b * s >= s);
        assert(b * s <= 0x10_0000 * s);
    }
    closeness::lemma_times(n, spacing);
    let hz = n.times(spacing);
    let h = units_of(hz);
    assert((b * w) * s == (b * s) * w) by (nonlinear_arith);
    closeness::lemma_cancel(h, b * s, 1, w);
    closeness::lemma_multiple(h, b * s, 1, 2048);
    closeness::lemma_multiple(2048 * s, r * w, 1, b);
    let f = b * r;
    assert((b * s) * 2048 == (2048 * s) * b && (r * w) * b == f * w) by (nonlinear_arith)
        requires
            f == b * r,
    ;
    closeness::lemma_chain(h * 2048, (2048 * s) * b, f * w, 1, 1);
    closeness::lemma_half(2048 * h, f * w, 3);
    assert(1 <= f <= 0x100_0000_0000) by (nonlinear_arith)
        requires
            f == b * r,
            1 <= b <= 0x10_0000,
            1 <= r <= 0x10_0000,
    ;
    assert(w <= 4096 * h && h <= 0x100_0000_0000 * w) by (nonlinear_arith)
        requires
            2 * (2048 * h) >= f * w,
            2048 * h <= 2 * (f * w),
            1 <= f <= 0x100_0000_0000,
            w > 0,
    ;
    lemma_shares();
    let width = Single { bits: features::AUTO_BAND_WIDTH };
    lemma_share(hz, Single::one().minus(width), f, 6);
    lemma_share(hz, Single::one().plus(width), f, 14);
    assert(hz == features::peak_frequency(spectrum, from, sample_rate));
    b
}

} // verus!
