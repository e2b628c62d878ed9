//! What the vibration envelope of the gyroscope shows, and what it does not.

use crate::audio::closeness;
use crate::audio::closeness::{near, positive};
use crate::audio::features;
use crate::audio::features::{FeatureParams, GyroSample};
use crate::audio::signal;
use crate::color::drift;
use crate::color::drift::{units_of, whole};
use crate::ieee::double::Double;
use crate::ieee::grid;
use crate::ieee::grid::Format;
use crate::ieee::laws;
use crate::ieee::number;
use crate::ieee::single::Single;
use vstd::arithmetic::power2::*;
use vstd::prelude::*;

verus! {

/// Bits of 2^-100 and 2^100, far beyond any cutoff in Hz.
pub const LEAST_CUTOFF: u32 = 0x0d80_0000;

pub const LARGEST_CUTOFF: u32 = 0x7180_0000;

/// A cutoff that a filter can have.
pub open spec fn is_cutoff(hz: Single) -> bool {
    (Single { bits: LEAST_CUTOFF }).at_most(hz) && hz.at_most(Single { bits: LARGEST_CUTOFF })
}

/// All readings show one and the same finite rotation length.
pub open spec fn turns_steadily(gyro: Seq<GyroSample>) -> bool {
    forall|i: int|
        0 <= i < gyro.len() ==> {
            &&& #[trigger] features::rotation(gyro[i].1) == features::rotation(gyro[0].1)
            &&& laws::is_finite(features::rotation(gyro[i].1))
        }
}

/// The readings come one after the other.
pub open spec fn runs_forward(gyro: Seq<GyroSample>) -> bool {
    gyro.len() >= 2 && Double::zero().less(gyro.last().0.minus(gyro[0].0))
}

/// Some powers of two, in units.
proof fn lemma_powers()
    ensures
        grid::units(Format::Single, 0x3f80_0000) == pow2(149),
        grid::units(Format::Single, LEAST_CUTOFF as nat) == pow2(49),
        grid::units(Format::Single, LARGEST_CUTOFF as nat) == pow2(249),
        grid::units(Format::Single, 0x4100_0000) == pow2(152),
        grid::units(Format::Single, 0x7300_0000) == pow2(252),
{
    lemma2_to64();
    lemma_pow2_adds(23, 126);
    lemma_pow2_adds(23, 26);
    lemma_pow2_adds(23, 226);
    lemma_pow2_adds(23, 129);
    lemma_pow2_adds(23, 229);
    assert(0x3f80_0000nat / 0x80_0000nat == 127 && 0x3f80_0000nat % 0x80_0000nat == 0);
    assert(0x0d80_0000nat / 0x80_0000nat == 27 && 0x0d80_0000nat % 0x80_0000nat == 0);
    assert(0x7180_0000nat / 0x80_0000nat == 227 && 0x7180_0000nat % 0x80_0000nat == 0);
    assert(0x4100_0000nat / 0x80_0000nat == 130 && 0x4100_0000nat % 0x80_0000nat == 0);
    assert(0x7300_0000nat / 0x80_0000nat == 230 && 0x7300_0000nat % 0x80_0000nat == 0);
}

/// The time constant of a cutoff is finite and above zero.
proof fn lemma_time_constant(hz: Single)
    requires
        is_cutoff(hz),
    ensures
        ({
            let rc = Single::one().over((Single { bits: signal::TURN }).times(hz));
            laws::is_finite(rc) && Single::zero().less(rc)
        }),
{
    let f = Format::Single;
    let turn = Single { bits: signal::TURN };
    let (a, b) = (turn.number().index as nat, hz.number().index as nat);
    let (u, v) = (grid::units(f, a), grid::units(f, b));
    let p = pow2(149);
    lemma_powers();
    lemma_pow2_pos(149);
    lemma_pow2_pos(49);
    grid::lemma_units_increase(f, 0x3f80_0000, a);
    grid::lemma_units_increase(f, a, 0x4100_0000);
    grid::lemma_units_increase(f, LEAST_CUTOFF as nat, b);
    grid::lemma_units_increase(f, b, LARGEST_CUTOFF as nat);
    // The angular cutoff lies between the cutoff and eight times it.
    let n = u * v;
    laws::law_nearest_exists(f, n, p);
    laws::law_rounding_keeps_values(f, b, p);
    laws::law_rounding_keeps_values(f, 0x7300_0000, p);
    lemma_pow2_adds(152, 249);
    lemma_pow2_adds(252, 149);
    assert((v * p) * p <= n * p) by (nonlinear_arith)
        requires
            n == u * v,
            p <= u,
            p > 0,
    ;
    assert(n <= pow2(252) * p) by (nonlinear_arith)
        requires
            n == u * v,
            u <= pow2(152),
            v <= pow2(249),
            pow2(152) * pow2(249) == pow2(252) * p,
    ;
    assert(n * p <= (pow2(252) * p) * p) by (nonlinear_arith)
        requires
            n <= pow2(252) * p,
    ;
    laws::law_rounding_keeps_order(f, v * p, p, n, p);
    laws::law_rounding_keeps_order(f, n, p, pow2(252) * p, p);
    let z = turn.times(hz);
    let k = grid::round_magnitude(f, n, p);
    assert(z.number() == (number::Number { negative: false, index: k as u64 }));
    let w = grid::units(f, k);
    grid::lemma_units_increase(f, b, k);
    grid::lemma_units_increase(f, k, 0x7300_0000);
    assert(pow2(49) <= w <= pow2(252));
    // So its inverse is neither zero nor endless.
    let m = p * p;
    laws::law_nearest_exists(f, m, w);
    laws::law_rounding_keeps_values(f, LARGEST_CUTOFF as nat, w);
    laws::law_rounding_keeps_values(f, 1, w);
    assert(grid::units(f, 1) == 1);
    lemma_pow2_adds(149, 149);
    lemma_pow2_adds(249, 49);
    lemma_pow2_strictly_increases(252, 298);
    assert(m * w <= (pow2(249) * w) * w) by (nonlinear_arith)
        requires
            m == pow2(249) * pow2(49),
            pow2(49) <= w,
    ;
    assert((1 * w) * w <= m * w) by (nonlinear_arith)
        requires
            w <= m,
    ;
    laws::law_rounding_keeps_order(f, m, w, pow2(249) * w, w);
    laws::law_rounding_keeps_order(f, 1 * w, w, m, w);
    let rc = Single::one().over(z);
    assert(rc.number() == (number::Number {
        negative: false,
        index: grid::round_magnitude(f, m, w) as u64,
    }));
}

/// The weight of the past lies between 0 and 1.
proof fn lemma_weight(rate: Single, hz: Single)
    requires
        is_cutoff(hz),
        !rate.nan(),
        !rate.at_most(Single::zero()),
    ensures
        ({
            let alpha = features::highpass_weight(rate, hz);
            laws::is_finite(alpha) && Single::zero().at_most(alpha) && alpha.at_most(Single::one())
        }),
{
    let f = Format::Single;
    let p = pow2(149);
    let rc = Single::one().over((Single { bits: signal::TURN }).times(hz));
    let dt = Single::one().over(rate);
    lemma_time_constant(hz);
    lemma_powers();
    lemma_pow2_pos(149);
    // The distance of two samples is not below zero.
    let r = rate.number().index as nat;
    grid::lemma_units_increase(f, 0, r);
    assert(grid::units(f, 0) == 0);
    laws::law_nearest_exists(f, p * p, grid::units(f, r));
    assert(!dt.nan() && !dt.number().negative);
    // So the sum is at least the time constant.
    let c = rc.number().index as nat;
    let u = grid::units(f, c);
    grid::lemma_units_increase(f, 0, c);
    let d = dt.number().index as nat;
    let t = u + grid::units(f, d);
    laws::law_nearest_exists(f, t, 1);
    laws::law_rounding_keeps_values(f, c, 1);
    assert(u * 1 == u);
    laws::law_rounding_keeps_order(f, u, 1, t, 1);
    let s = rc.plus(dt);
    assert(!s.nan() && !s.number().negative && s.number().index >= c);
    // And the ratio is at most one.
    if laws::is_finite(s) {
        let k = s.number().index as nat;
        let w = grid::units(f, k);
        grid::lemma_units_increase(f, c, k);
        laws::law_nearest_exists(f, u * p, w);
        laws::law_rounding_keeps_values(f, 0x3f80_0000, w);
        assert((u * p) * w <= (p * w) * w) by (nonlinear_arith)
            requires
                u <= w,
        ;
        laws::law_rounding_keeps_order(f, u * p, w, p * w, w);
    }
}

/// A ratio of two values that are not below zero is a number, unless both are
/// zero or both endless.
proof fn lemma_ratio(x: Double, y: Double)
    requires
        !x.nan(),
        !y.nan(),
        !x.number().negative,
        !y.number().negative,
        x.number().index < Format::Double.infinity() || y.number().index < Format::Double.infinity(),
        y.number().index != 0,
    ensures
        !x.over(y).nan(),
        !x.over(y).number().negative,
{
    let f = Format::Double;
    let d = y.number().index as nat;
    grid::lemma_units_increase(f, 0, d);
    assert(grid::units(f, 0) == 0);
    laws::law_nearest_exists(
        f,
        grid::units(f, x.number().index as nat) * pow2(1074),
        grid::units(f, d),
    );
}

/// A count is a finite value.
proof fn lemma_count(n: u64)
    ensures
        ({
            let x = Double::from_u64(n);
            !x.nan() && !x.number().negative && x.number().index < Format::Double.infinity()
        }),
{
    let f = Format::Double;
    let p = pow2(1074);
    let top = pow2(64) * p;
    lemma2_to64();
    lemma2_to64_rest();
    lemma_pow2_pos(1074);
    assert(grid::units(f, 0x43f0_0000_0000_0000) == top) by {
        lemma_pow2_adds(52, 1086);
        lemma_pow2_adds(64, 1074);
        assert(0x43f0_0000_0000_0000nat / 0x10_0000_0000_0000nat == 1087
            && 0x43f0_0000_0000_0000nat % 0x10_0000_0000_0000nat == 0);
    }
    laws::law_rounding_keeps_values(f, 0x43f0_0000_0000_0000, 1);
    laws::law_nearest_exists(f, n as nat * p, 1);
    let (m, k) = (n as nat, pow2(64));
    assert(k == 0x1_0000_0000_0000_0000);
    assert((m * p) * 1 <= (top * 1) * 1) by (nonlinear_arith)
        requires
            m <= k,
            top == k * p,
    ;
    assert(top * 1 == top);
    laws::law_rounding_keeps_order(f, m * p, 1, top, 1);
}

/// The rate of readings that come one after the other is a number, wherever they
/// cover any time.
proof fn lemma_rate(gyro: Seq<GyroSample>)
    requires
        runs_forward(gyro),
        gyro.len() <= u64::MAX,
        !features::covered(gyro).at_most(Double::zero()),
    ensures
        !features::gyro_rate(gyro).nan(),
{
    let d = gyro.last().0.minus(gyro[0].0);
    let millis = Double { bits: features::MILLIS };
    lemma_ratio(d, millis);
    let t = features::covered(gyro);
    let n = Double::from_u64(gyro.len() as u64);
    lemma_count(gyro.len() as u64);
    assert(t.number().index != 0);
    lemma_ratio(n, t);
    let rate = n.over(t);
    lemma_pow2_pos(1074);
    laws::law_nearest_exists(
        Format::Single,
        grid::units(Format::Double, rate.number().index as nat) * pow2(149),
        pow2(1074),
    );
}

/// A steady signal leaves nothing behind the high-pass.
proof fn lemma_steady(s: Seq<Single>, alpha: Single, i: nat)
    requires
        i < s.len(),
        laws::is_finite(alpha),
        forall|j: int| 0 <= j <= i ==> #[trigger] s[j] == s[0],
        laws::is_finite(s[0]),
    ensures
        features::highpass_at(s, alpha, i).number().index == 0,
    decreases i,
{
    if i > 0 {
        lemma_steady(s, alpha, (i - 1) as nat);
        let before = features::highpass_at(s, alpha, (i - 1) as nat);
        let m = s[0];
        assert(s[i as int] == m && s[i - 1] == m);
        laws::law_plus_zero(m, before);
        let raised = before.plus(m);
        if m.number().index != 0 {
            assert(raised == m);
            laws::law_minus_itself(m);
        } else {
            assert(raised.number().index == 0);
            assert(raised.minus(m).number().index == 0);
        }
        laws::law_times_zero(alpha, raised.minus(m));
    }
}

/// Nothing has no energy: only the floor is left.
proof fn lemma_silence(s: Seq<Single>)
    requires
        forall|j: int| 0 <= j < s.len() ==> (#[trigger] s[j]).number().index == 0,
    ensures
        signal::total(features::powers(s)).number().index == 0,
    decreases s.len(),
{
    let all = features::powers(s);
    if s.len() > 0 {
        let t = s.drop_last();
        assert forall|j: int| 0 <= j < t.len() implies (#[trigger] t[j]).number().index == 0 by {
            assert(t[j] == s[j]);
        }
        lemma_silence(t);
        assert(all.drop_last() =~= features::powers(t));
        let last = s[s.len() - 1];
        laws::law_times_zero(last, last);
    }
}

/// Intentional motion does not show: of a drone that turns steadily, however
/// fast, every point of the envelope is the floor of the logarithm.
pub proof fn law_steady_motion_does_not_show(
    gyro: Seq<GyroSample>,
    target_rate_hz: Single,
    params: FeatureParams,
    b: int,
)
    requires
        turns_steadily(gyro),
        runs_forward(gyro),
        gyro.len() <= u64::MAX,
        is_cutoff(params.highpass_hz),
        0 <= b < features::gyro_energies(gyro, target_rate_hz, params).len(),
    ensures
        features::gyro_energies(gyro, target_rate_hz, params)[b] == (Single {
            bits: features::LOG_FLOOR,
        }),
{
    let rate = features::gyro_rate(gyro);
    let s = features::rotations(gyro);
    let filtered = features::highpassed(s, rate, params.highpass_hz);
    let size = features::readings_per_point(rate, target_rate_hz);
    lemma_rate(gyro);
    assert(!rate.at_most(Single::zero()));
    assert forall|j: int| 0 <= j < s.len() implies #[trigger] s[j] == s[0] by {
        assert(features::rotation(gyro[j].1) == features::rotation(gyro[0].1));
    }
    assert(laws::is_finite(features::rotation(gyro[0].1)));
    lemma_filtered(s, rate, params.highpass_hz);
    lemma_floor(filtered, size, b);
}

/// A steady signal after the high-pass.
proof fn lemma_filtered(s: Seq<Single>, rate: Single, hz: Single)
    requires
        is_cutoff(hz),
        !rate.nan(),
        !rate.at_most(Single::zero()),
        forall|j: int| 0 <= j < s.len() ==> #[trigger] s[j] == s[0],
        s.len() > 0 ==> laws::is_finite(s[0]),
    ensures
        forall|j: int|
            0 <= j < s.len() ==> (#[trigger] features::highpassed(s, rate, hz)[j]).number().index == 0,
{
    lemma_weight(rate, hz);
    let all = features::highpassed(s, rate, hz);
    assert forall|j: int| 0 <= j < s.len() implies (#[trigger] all[j]).number().index == 0 by {
        lemma_steady(s, features::highpass_weight(rate, hz), j as nat);
    }
}

/// The energies of nothing are the floor.
proof fn lemma_floor(s: Seq<Single>, size: nat, b: int)
    requires
        size > 0,
        forall|j: int| 0 <= j < s.len() ==> (#[trigger] s[j]).number().index == 0,
        0 <= b < s.len() / size,
    ensures
        features::group_energies(s, size)[b] == (Single { bits: features::LOG_FLOOR }),
{
    let part = s.subrange(b * size, b * size + size);
    lemma_group(s.len(), size, b);
    assert forall|j: int| 0 <= j < part.len() implies (#[trigger] part[j]).number().index == 0 by {
        assert(part[j] == s[b * size + j]);
    }
    lemma_silence(part);
    let floor = Single { bits: features::LOG_FLOOR };
    laws::law_plus_zero(floor, signal::total(features::powers(part)));
}

/// A group lies within the signal.
proof fn lemma_group(length: nat, size: nat, b: int)
    requires
        size > 0,
        0 <= b < length / size,
    ensures
        0 <= b * size,
        b * size + size <= length,
{
    vstd::arithmetic::div_mod::lemma_fundamental_div_mod(length as int, size as int);
    vstd::arithmetic::div_mod::lemma_mod_bound(length as int, size as int);
    let count = length as int / size as int;
    assert(0 <= b * size && b * size + size <= length) by (nonlinear_arith)
        requires
            0 <= b,
            b + 1 <= count,
            length == size * count + length as int % size as int,
            length as int % size as int >= 0,
            size > 0,
    ;
}

/// Of the parameters only the cutoff of the high-pass counts for the gyroscope.
pub proof fn law_only_the_cutoff_counts(
    gyro: Seq<GyroSample>,
    target_rate_hz: Single,
    p: FeatureParams,
    q: FeatureParams,
)
    requires
        p.highpass_hz == q.highpass_hz,
    ensures
        features::gyro_energies(gyro, target_rate_hz, p) == features::gyro_energies(
            gyro,
            target_rate_hz,
            q,
        ),
{
}

/// A frequency between a thousandth of a Hertz and a million.
pub open spec fn is_frequency(hz: Single) -> bool {
    positive(hz) && whole() <= 1024 * units_of(hz) && units_of(hz) <= 0x10_0000 * whole()
}

/// The parts that the weight of the high-pass is made of.
proof fn lemma_weight_parts(rate: Single, hz: Single)
    requires
        is_frequency(rate),
        is_frequency(hz),
    ensures
        ({
            let turn = Single { bits: signal::TURN };
            let p = turn.times(hz);
            let rc = Single::one().over(p);
            let dt = Single::one().over(rate);
            let s = rc.plus(dt);
            let alpha = features::highpass_weight(rate, hz);
            let (w, r) = (whole(), units_of(rate));
            &&& positive(p) && positive(rc) && positive(dt) && positive(s) && positive(alpha)
            &&& near(units_of(p) * w, units_of(turn) * units_of(hz), 1)
            &&& near(units_of(rc) * units_of(p), w * w, 1)
            &&& near(units_of(dt) * r, w * w, 1)
            &&& near(units_of(s), units_of(rc) + units_of(dt), 1)
            &&& near(units_of(alpha) * units_of(s), units_of(rc) * w, 1)
            &&& w <= 0x1_0000_0000_0000 * units_of(alpha)
            &&& units_of(alpha) <= 4 * w
        }),
{
    let turn = Single { bits: signal::TURN };
    let w = whole();
    let (c, r, t) = (units_of(hz), units_of(rate), units_of(turn));
    drift::lemma_measures();
    drift::lemma_ends();
    closeness::lemma_turn();
    lemma_large();
    assert(0x100_0000 * w <= t * c <= closeness::far() * w) by (nonlinear_arith)
        requires
            w <= t <= 8 * w,
            w <= 1024 * c,
            c <= 0x10_0000 * w,
            closeness::far() == 0x1000_0000_0000_0000 * w,
            w >= 0x1_0000_0000_0000_0000,
    {
        assert(w * c <= t * c <= (8 * w) * c);
        assert(1024 * (w * c) >= w * w);
        assert(w * w >= 0x1_0000_0000_0000_0000 * w);
        assert((8 * w) * c <= (8 * w) * (0x10_0000 * w));
        assert((8 * w) * (0x10_0000 * w) == 0x80_0000 * (w * w));
        assert(closeness::far() * w == 0x1000_0000_0000_0000 * (w * w));
    }
    closeness::lemma_times(turn, hz);
    let p = turn.times(hz);
    let up = units_of(p);
    closeness::lemma_half(up * w, t * c, 1);
    assert(w <= 2048 * up && up <= 0x100_0000 * w) by (nonlinear_arith)
        requires
            2 * (up * w) >= t * c,
            up * w <= 2 * (t * c),
            w <= t <= 8 * w,
            w <= 1024 * c,
            c <= 0x10_0000 * w,
            w > 0,
            c > 0,
    {
        assert(t * c >= w * c && t * c <= (8 * w) * c);
        assert(2 * (up * w) >= w * c);
        assert(2 * up >= c);
        assert(up * w <= 16 * (w * c));
        assert(up <= 16 * c);
    }
    lemma_inverse(p, 0x100_0000);
    lemma_inverse(rate, 0x10_0000);
    let (rc, dt) = (Single::one().over(p), Single::one().over(rate));
    let (a, b) = (units_of(rc), units_of(dt));
    assert(a <= 4096 * w && b <= 4096 * w);
    closeness::lemma_plus(rc, dt);
    let s = rc.plus(dt);
    let us = units_of(s);
    closeness::lemma_half(us, a + b, 1);
    assert(0x100_0000 * us <= a * w <= closeness::far() * us) by (nonlinear_arith)
        requires
            us <= 2 * (a + b),
            2 * us >= a + b,
            a <= 4096 * w,
            b <= 4096 * w,
            w <= 0x200_0000 * a,
            b > 0,
            w >= 0x1_0000_0000_0000_0000,
            closeness::far() == 0x1000_0000_0000_0000 * w,
    {
        assert(us <= 16384 * w);
        assert(0x100_0000 * us <= 0x100_0000 * (16384 * w));
        assert(0x200_0000 * (a * w) >= w * w);
        assert(w * w >= 0x1_0000_0000_0000_0000 * w);
        assert(2 * us >= a);
        assert(a * w <= 2 * us * w);
    }
    closeness::lemma_over(rc, s);
    let alpha = rc.over(s);
    assert(alpha == features::highpass_weight(rate, hz));
    let ua = units_of(alpha);
    closeness::lemma_half(ua * us, a * w, 1);
    assert(w <= 0x1_0000_0000_0000 * ua && ua <= 4 * w) by (nonlinear_arith)
        requires
            2 * (ua * us) >= a * w,
            ua * us <= 2 * (a * w),
            us <= 2 * (a + b),
            2 * us >= a + b,
            a <= 4096 * w,
            b <= 4096 * w,
            w <= 0x200_0000 * a,
            a > 0,
            b > 0,
            w > 0,
            ua > 0,
    {
        assert(us <= 16384 * w);
        assert(2 * (ua * (16384 * w)) >= a * w);
        assert(32768 * ua >= a);
        assert(2 * us >= a);
        assert(ua * a <= ua * (2 * us));
        assert(ua * a <= 4 * (a * w));
        assert(ua <= 4 * w);
    }
}

proof fn lemma_large()
    ensures
        whole() >= 0x1_0000_0000_0000_0000_0000_0000,
{
    lemma2_to64();
    lemma_pow2_adds(64, 32);
    lemma_pow2_strictly_increases(96, 149);
}

/// One over a value.
proof fn lemma_inverse(x: Single, top: int)
    requires
        positive(x),
        whole() <= 2048 * units_of(x),
        units_of(x) <= top * whole(),
        1 <= top <= 0x100_0000,
    ensures
        ({
            let r = Single::one().over(x);
            &&& positive(r)
            &&& near(units_of(r) * units_of(x), whole() * whole(), 1)
            &&& units_of(r) <= 4096 * whole()
            &&& whole() <= (2 * top) * units_of(r)
        }),
{
    let (w, u) = (whole(), units_of(x));
    drift::lemma_measures();
    drift::lemma_ends();
    lemma_large();
    assert(0x100_0000 * u <= w * w <= closeness::far() * u) by (nonlinear_arith)
        requires
            w <= 2048 * u,
            u <= top * w,
            top <= 0x100_0000,
            w >= 0x1_0000_0000_0000_0000,
            closeness::far() == 0x1000_0000_0000_0000 * w,
    {
        assert(w * w >= 0x1_0000_0000_0000_0000 * w);
        assert(u <= 0x100_0000 * w);
        assert(w * w <= (2048 * u) * w);
    }
    closeness::lemma_over(Single::one(), x);
    let r = units_of(Single::one().over(x));
    closeness::lemma_half(r * u, w * w, 1);
    assert(r <= 4096 * w && w <= (2 * top) * r) by (nonlinear_arith)
        requires
            2 * (r * u) >= w * w,
            r * u <= 2 * (w * w),
            w <= 2048 * u,
            u <= top * w,
            w > 0,
            r > 0,
            top >= 1,
    {
        assert(r * w <= r * (2048 * u));
        assert(r * w <= 4096 * (w * w));
        assert(2 * (r * (top * w)) >= w * w);
        assert(((2 * top) * r) * w >= w * w);
    }
}

/// The cutoff sets the weight of the high-pass: the rate over the sum of the rate
/// and 2 pi times the cutoff.
pub proof fn law_cutoff_sets_the_weight(rate: Single, hz: Single)
    requires
        is_frequency(rate),
        is_frequency(hz),
    ensures
        ({
            let alpha = features::highpass_weight(rate, hz);
            let (r, c) = (units_of(rate), units_of(hz));
            &&& positive(alpha)
            &&& near(
                units_of(alpha) * (10_000_000 * r + 62_831_853 * c),
                (10_000_000 * r) * whole(),
                15,
            )
        }),
{
    let turn = Single { bits: signal::TURN };
    let (w, r, c, t) = (whole(), units_of(rate), units_of(hz), units_of(turn));
    drift::lemma_measures();
    closeness::lemma_turn();
    lemma_weight_parts(rate, hz);
    let p = turn.times(hz);
    let (rc, dt) = (Single::one().over(p), Single::one().over(rate));
    let s = rc.plus(dt);
    let alpha = features::highpass_weight(rate, hz);
    lemma_weight_sum(
        units_of(alpha),
        units_of(s),
        units_of(rc),
        units_of(dt),
        units_of(p),
        r,
        w,
    );
    lemma_weight_turn(units_of(alpha), units_of(p), r, c, t, w);
}

/// From the parts to the weight, over the angular cutoff `p`.
proof fn lemma_weight_sum(a: int, s: int, rc: int, dt: int, p: int, r: int, w: int)
    requires
        near(a * s, rc * w, 1),
        near(s, rc + dt, 1),
        near(rc * p, w * w, 1),
        near(dt * r, w * w, 1),
        a > 0,
        s > 0,
        rc > 0,
        dt > 0,
        p > 0,
        r > 0,
        w > 0,
    ensures
        near(a * (r + p), w * r, 9),
{
    // a (rc + dt) is rc w.
    closeness::lemma_multiple(s, rc + dt, 1, a);
    closeness::lemma_flip(s * a, (rc + dt) * a, 1);
    assert(s * a == a * s) by (nonlinear_arith);
    closeness::lemma_chain((rc + dt) * a, a * s, rc * w, 2, 1);
    // Both times p r.
    let m = p * r;
    assert(m > 0) by (nonlinear_arith)
        requires
            p > 0,
            r > 0,
            m == p * r,
    ;
    closeness::lemma_multiple((rc + dt) * a, rc * w, 4, m);
    // (rc + dt) p r is w w (r + p).
    closeness::lemma_multiple(rc * p, w * w, 1, r);
    closeness::lemma_multiple(dt * r, w * w, 1, p);
    closeness::lemma_sum((rc * p) * r, (w * w) * r, (dt * r) * p, (w * w) * p, 1);
    let q = (w * w) * r + (w * w) * p;
    closeness::lemma_multiple((rc * p) * r + (dt * r) * p, q, 1, a);
    closeness::lemma_flip(((rc * p) * r + (dt * r) * p) * a, q * a, 1);
    assert(((rc * p) * r + (dt * r) * p) * a == ((rc + dt) * a) * m) by (nonlinear_arith)
        requires
            m == p * r,
    {
        assert((rc * p) * r + (dt * r) * p == (rc + dt) * (p * r));
    }
    closeness::lemma_chain(q * a, ((rc + dt) * a) * m, (rc * w) * m, 2, 4);
    // rc w p r is w w w r.
    let n = w * r;
    assert(n >= 0) by (nonlinear_arith)
        requires
            n == w * r,
            w > 0,
            r > 0,
    ;
    closeness::lemma_multiple(rc * p, w * w, 1, n);
    assert((rc * p) * n == (rc * w) * m) by (nonlinear_arith)
        requires
            n == w * r,
            m == p * r,
    ;
    closeness::lemma_chain(q * a, (rc * w) * m, (w * w) * n, 7, 1);
    let b = w * w;
    assert(b > 0) by (nonlinear_arith)
        requires
            w > 0,
            b == w * w,
    ;
    assert(q * a == (a * (r + p)) * b && b * n == (w * r) * b) by (nonlinear_arith)
        requires
            q == b * r + b * p,
            n == w * r,
    ;
    closeness::lemma_cancel(a * (r + p), w * r, 9, b);
}

/// The angular cutoff is 2 pi times the cutoff.
proof fn lemma_weight_turn(a: int, p: int, r: int, c: int, t: int, w: int)
    requires
        near(a * (r + p), w * r, 9),
        near(p * w, t * c, 1),
        near(10_000_000 * t, 62_831_853 * w, 1),
        a > 0,
        p > 0,
        r > 0,
        c > 0,
        t > 0,
        w > 0,
    ensures
        near(a * (10_000_000 * r + 62_831_853 * c), (10_000_000 * r) * w, 15),
{
    let k = 10_000_000int;
    // Times ten million w.
    closeness::lemma_multiple(a * (r + p), w * r, 9, k * w);
    let x = k * (r * w) + k * (p * w);
    let y = k * (r * w) + k * (t * c);
    let z = k * (r * w) + (62_831_853 * w) * c;
    assert((a * (r + p)) * (k * w) == x * a && (w * r) * (k * w) == ((k * r) * w) * w) by (nonlinear_arith)
        requires
            x == k * (r * w) + k * (p * w),
    {
        assert((r + p) * (k * w) == x);
        assert((a * (r + p)) * (k * w) == a * ((r + p) * (k * w)));
    }
    closeness::lemma_multiple(p * w, t * c, 1, k);
    assert(near(k * (r * w), k * (r * w), 1)) by {
        assert(r * w >= 0) by (nonlinear_arith)
            requires
                r > 0,
                w > 0,
        ;
    }
    assert((p * w) * k == k * (p * w) && (t * c) * k == k * (t * c)) by (nonlinear_arith);
    closeness::lemma_sum(k * (r * w), k * (r * w), k * (p * w), k * (t * c), 1);
    closeness::lemma_multiple(k * t, 62_831_853 * w, 1, c);
    assert((k * t) * c == k * (t * c)) by (nonlinear_arith);
    closeness::lemma_sum(k * (r * w), k * (r * w), k * (t * c), (62_831_853 * w) * c, 1);
    closeness::lemma_chain(x, y, z, 1, 1);
    closeness::lemma_multiple(x, z, 3, a);
    closeness::lemma_flip(x * a, z * a, 3);
    closeness::lemma_chain(z * a, x * a, ((k * r) * w) * w, 4, 9);
    assert(z * a == (a * (k * r + 62_831_853 * c)) * w) by (nonlinear_arith)
        requires
            z == k * (r * w) + (62_831_853 * w) * c,
    {
        assert(z == (k * r + 62_831_853 * c) * w);
    }
    closeness::lemma_cancel(a * (k * r + 62_831_853 * c), (k * r) * w, 14, w);
    assert(near(a * (k * r + 62_831_853 * c), (k * r) * w, 15)) by {
        assert((k * r) * w >= 0) by (nonlinear_arith)
            requires
                k * r >= 0,
                w > 0,
        ;
    }
}

/// The first change of a steady signal passes the filter: what comes out is the
/// change times the weight that the cutoff sets.
pub proof fn law_first_change_passes(s: Seq<Single>, rate: Single, hz: Single, i: int)
    requires
        is_frequency(rate),
        is_frequency(hz),
        0 < i < s.len(),
        forall|j: int| 0 <= j < i ==> #[trigger] s[j] == s[0],
        laws::is_finite(s[0]) && laws::is_finite(s[i]),
        0 <= units_of(s[0]),
        whole() <= 0x10_0000 * (units_of(s[i]) - units_of(s[0])),
        units_of(s[i]) <= 0x10_0000 * whole(),
    ensures
        ({
            let y = features::highpassed(s, rate, hz)[i];
            let (r, c) = (units_of(rate), units_of(hz));
            &&& features::highpassed(s, rate, hz).len() == s.len()
            &&& positive(y)
            &&& whole() <= 0x10_0000_0000_0000_0000_0000 * units_of(y)
            &&& units_of(y) <= 0x100_0000 * whole()
            &&& near(
                units_of(y) * (10_000_000 * r + 62_831_853 * c),
                (10_000_000 * r) * (units_of(s[i]) - units_of(s[0])),
                20,
            )
        }),
{
    let alpha = features::highpass_weight(rate, hz);
    let w = whole();
    drift::lemma_measures();
    drift::lemma_ends();
    lemma_large();
    lemma_weight_parts(rate, hz);
    law_cutoff_sets_the_weight(rate, hz);
    drift::lemma_order(rate, Single::zero());
    lemma_steady(s, alpha, (i - 1) as nat);
    let before = features::highpass_at(s, alpha, (i - 1) as nat);
    let (x, m) = (s[i], s[i - 1]);
    assert(m == s[0]);
    assert(x.number().index != 0) by {
        reveal(units_of);
        assert(grid::units(Format::Single, 0) == 0);
    }
    laws::law_plus_zero(x, before);
    assert(before.plus(x) == x);
    let d = units_of(x) - units_of(m);
    closeness::lemma_minus(x, m);
    let change = x.minus(m);
    let (a, u) = (units_of(alpha), units_of(change));
    closeness::lemma_half(u, d, 1);
    assert(0x100_0000 * w <= a * u <= closeness::far() * w) by (nonlinear_arith)
        requires
            w <= 0x1_0000_0000_0000 * a,
            a <= 4 * w,
            2 * u >= d,
            u <= 2 * d,
            w <= 0x10_0000 * d,
            d <= 0x10_0000 * w,
            a > 0,
            w >= 0x1_0000_0000_0000_0000_0000_0000,
            closeness::far() == 0x1000_0000_0000_0000 * w,
    {
        assert(w <= 0x20_0000 * u);
        assert(w * w <= (0x1_0000_0000_0000 * a) * (0x20_0000 * u));
        assert((0x1_0000_0000_0000 * a) * (0x20_0000 * u) == 0x20_0000_0000_0000_0000 * (a * u));
        assert(w * w >= 0x1_0000_0000_0000_0000_0000_0000 * w);
        assert(a * u <= (4 * w) * (0x20_0000 * w));
    }
    closeness::lemma_times(alpha, change);
    let y = alpha.times(change);
    let uy = units_of(y);
    assert(y == features::highpassed(s, rate, hz)[i]);
    closeness::lemma_half(uy * w, a * u, 1);
    assert(w <= 0x10_0000_0000_0000_0000_0000 * uy && uy <= 0x100_0000 * w) by (nonlinear_arith)
        requires
            2 * (uy * w) >= a * u,
            uy * w <= 2 * (a * u),
            w <= 0x1_0000_0000_0000 * a,
            a <= 4 * w,
            2 * u >= d,
            u <= 2 * d,
            w <= 0x10_0000 * d,
            d <= 0x10_0000 * w,
            a > 0,
            w > 0,
    {
        assert(w <= 0x20_0000 * u);
        assert(w * w <= (0x1_0000_0000_0000 * a) * (0x20_0000 * u));
        assert((0x1_0000_0000_0000 * a) * (0x20_0000 * u) == 0x20_0000_0000_0000_0000 * (a * u));
        assert(w * w <= 0x40_0000_0000_0000_0000 * (uy * w));
        assert(w <= 0x40_0000_0000_0000_0000 * uy);
        assert(a * u <= (4 * w) * (0x20_0000 * w));
        assert(uy * w <= 2 * ((4 * w) * (0x20_0000 * w)));
        assert(uy <= 0x100_0000 * w);
    }
    // uy w is a u, u is d, and a times the sum is the rate.
    let (r, c) = (units_of(rate), units_of(hz));
    let sum = 10_000_000 * r + 62_831_853 * c;
    closeness::lemma_product(a * sum, (10_000_000 * r) * w, 15, u, d, 1);
    closeness::lemma_multiple(uy * w, a * u, 1, sum);
    assert((a * u) * sum == (a * sum) * u && (uy * w) * sum == (uy * sum) * w) by (nonlinear_arith);
    closeness::lemma_chain((uy * sum) * w, (a * sum) * u, ((10_000_000 * r) * w) * d, 1, 17);
    assert(((10_000_000 * r) * w) * d == ((10_000_000 * r) * d) * w) by (nonlinear_arith);
    closeness::lemma_cancel(uy * sum, (10_000_000 * r) * d, 19, w);
    let b = (10_000_000 * r) * d;
    assert(19 * b <= 20 * b) by {
        assert(b >= 0);
    }
}

/// The energy of a single value among nothing, with the floor.
proof fn lemma_lone_energy(part: Seq<Single>)
    requires
        part.len() > 0,
        forall|j: int| 0 <= j < part.len() - 1 ==> (#[trigger] part[j]).number().index == 0,
        positive(part.last()),
        whole() <= 0x8000_0000 * units_of(part.last()),
        units_of(part.last()) <= 0x100_0000 * whole(),
    ensures
        ({
            let floor = Single { bits: features::LOG_FLOOR };
            let e = signal::total(features::powers(part)).plus(floor);
            let y = units_of(part.last());
            near(units_of(e) * whole(), y * y + units_of(floor) * whole(), 3)
        }),
{
    let w = whole();
    drift::lemma_measures();
    drift::lemma_ends();
    lemma_large();
    let all = features::powers(part);
    let front = part.drop_last();
    assert forall|j: int| 0 <= j < front.len() implies (#[trigger] front[j]).number().index == 0 by {
        assert(front[j] == part[j]);
    }
    lemma_silence(front);
    assert(all.drop_last() =~= features::powers(front));
    let x = part.last();
    let y = units_of(x);
    assert(all.last() == x.times(x));
    assert(0x100_0000 * w <= y * y <= closeness::far() * w) by (nonlinear_arith)
        requires
            w <= 0x8000_0000 * y,
            y <= 0x100_0000 * w,
            w >= 0x1_0000_0000_0000_0000_0000_0000,
            closeness::far() == 0x1000_0000_0000_0000 * w,
    {
        assert(w * w <= (0x8000_0000 * y) * (0x8000_0000 * y));
        assert((0x8000_0000 * y) * (0x8000_0000 * y) == 0x4000_0000_0000_0000 * (y * y));
        assert(w * w >= 0x1_0000_0000_0000_0000_0000_0000 * w);
        assert(y * y <= (0x100_0000 * w) * (0x100_0000 * w));
        assert((0x100_0000 * w) * (0x100_0000 * w) == 0x1_0000_0000_0000 * (w * w));
        assert(closeness::far() * w == 0x1000_0000_0000_0000 * (w * w));
    }
    closeness::lemma_times(x, x);
    let p = x.times(x);
    assert(p.number().index != 0) by {
        reveal(units_of);
        assert(grid::units(Format::Single, 0) == 0);
    }
    laws::law_plus_zero(p, signal::total(features::powers(front)));
    assert(signal::total(all) == p);
    let floor = Single { bits: features::LOG_FLOOR };
    assert(laws::is_finite(floor) && 0 <= units_of(floor) <= w) by {
        reveal(units_of);
        lemma_powers();
        grid::lemma_units_increase(Format::Single, features::LOG_FLOOR as nat, 0x3f80_0000);
    }
    let (up, uf) = (units_of(p), units_of(floor));
    closeness::lemma_half(up * w, y * y, 1);
    assert(0x100_0000 <= up && up <= 0x2_0000_0000_0000 * w) by (nonlinear_arith)
        requires
            2 * (up * w) >= y * y,
            up * w <= 2 * (y * y),
            0x100_0000 * w <= y * y,
            y <= 0x100_0000 * w,
            w <= 0x8000_0000 * y,
            w >= 0x1_0000_0000_0000_0000_0000_0000,
    {
        assert(w * w <= (0x8000_0000 * y) * (0x8000_0000 * y));
        assert((0x8000_0000 * y) * (0x8000_0000 * y) == 0x4000_0000_0000_0000 * (y * y));
        assert(w * w <= 0x8000_0000_0000_0000 * (up * w));
        assert(w <= 0x8000_0000_0000_0000 * up);
        assert(y * y <= (0x100_0000 * w) * (0x100_0000 * w));
        assert((0x100_0000 * w) * (0x100_0000 * w) == 0x1_0000_0000_0000 * (w * w));
        assert(up * w <= (0x2_0000_0000_0000 * w) * w);
    }
    closeness::lemma_plus(p, floor);
    let e = units_of(p.plus(floor));
    closeness::lemma_multiple(e, up + uf, 1, w);
    assert((up + uf) * w == up * w + uf * w) by (nonlinear_arith);
    assert(near(uf * w, uf * w, 1)) by {
        assert(uf * w >= 0) by (nonlinear_arith)
            requires
                uf >= 0,
                w > 0,
        ;
    }
    closeness::lemma_sum(up * w, y * y, uf * w, uf * w, 1);
    closeness::lemma_chain(e * w, up * w + uf * w, y * y + uf * w, 1, 1);
}

/// Vibration shows: where the rotation is steady up to the last reading of a point
/// of the envelope and rises there, the point holds the square of the rise times
/// the weight that the cutoff sets, and the floor of the logarithm. So the higher
/// the cutoff, the less of the rise is left.
pub proof fn law_first_change_shows(
    gyro: Seq<GyroSample>,
    target_rate_hz: Single,
    params: FeatureParams,
    b: int,
    i: int,
) -> (y: int)
    requires
        0 <= b < features::gyro_energies(gyro, target_rate_hz, params).len(),
        i == (b + 1) * features::readings_per_point(features::gyro_rate(gyro), target_rate_hz) - 1,
        i > 0,
        is_frequency(features::gyro_rate(gyro)),
        is_frequency(params.highpass_hz),
        units_of(params.highpass_hz) <= 100 * units_of(features::gyro_rate(gyro)),
        forall|j: int|
            0 <= j < i ==> #[trigger] features::rotation(gyro[j].1) == features::rotation(gyro[0].1),
        laws::is_finite(features::rotation(gyro[0].1)),
        laws::is_finite(features::rotation(gyro[i].1)),
        0 <= units_of(features::rotation(gyro[0].1)),
        whole() <= 0x10_0000 * (units_of(features::rotation(gyro[i].1)) - units_of(
            features::rotation(gyro[0].1),
        )),
        units_of(features::rotation(gyro[i].1)) <= 0x10_0000 * whole(),
    ensures
        ({
            let (r, c) = (units_of(features::gyro_rate(gyro)), units_of(params.highpass_hz));
            let rise = units_of(features::rotation(gyro[i].1)) - units_of(
                features::rotation(gyro[0].1),
            );
            let e = units_of(features::gyro_energies(gyro, target_rate_hz, params)[b]);
            let floor = units_of(Single { bits: features::LOG_FLOOR });
            &&& near(y * (10_000_000 * r + 62_831_853 * c), (10_000_000 * r) * rise, 20)
            &&& near(e * whole(), y * y + floor * whole(), 3)
        }),
{
    let rate = features::gyro_rate(gyro);
    let hz = params.highpass_hz;
    let s = features::rotations(gyro);
    let size = features::readings_per_point(rate, target_rate_hz);
    let filtered = features::highpassed(s, rate, hz);
    let alpha = features::highpass_weight(rate, hz);
    let w = whole();
    drift::lemma_measures();
    drift::lemma_ends();
    drift::lemma_order(rate, Single::zero());
    assert(filtered.len() == s.len());
    lemma_group(filtered.len(), size, b);
    assert((b + 1) * size == b * size + size) by (nonlinear_arith);
    assert forall|j: int| 0 <= j < i implies #[trigger] s[j] == s[0] by {
        assert(features::rotation(gyro[j].1) == features::rotation(gyro[0].1));
    }
    assert(s[0] == features::rotation(gyro[0].1) && s[i] == features::rotation(gyro[i].1));
    law_first_change_passes(s, rate, hz, i);
    lemma_weight_parts(rate, hz);
    let part = filtered.subrange(b * size, b * size + size);
    assert forall|j: int| 0 <= j < part.len() - 1 implies (#[trigger] part[j]).number().index == 0 by {
        let k = b * size + j;
        assert(part[j] == filtered[k]);
        lemma_steady(s, alpha, k as nat);
    }
    let last = part.last();
    assert(last == filtered[i]);
    let (y, r, c) = (units_of(last), units_of(rate), units_of(hz));
    let d = units_of(s[i]) - units_of(s[0]);
    let sum = 10_000_000 * r + 62_831_853 * c;
    closeness::lemma_half(y * sum, (10_000_000 * r) * d, 20);
    assert(w <= 0x8000_0000 * y) by (nonlinear_arith)
        requires
            2 * (y * sum) >= (10_000_000 * r) * d,
            sum == 10_000_000 * r + 62_831_853 * c,
            c <= 100 * r,
            w <= 0x10_0000 * d,
            y > 0,
            r > 0,
    {
        assert(sum <= (640 * 10_000_000) * r);
        assert(y * sum <= y * ((640 * 10_000_000) * r));
        assert(2 * (y * ((640 * 10_000_000) * r)) == (1280 * y) * (10_000_000 * r));
        assert((1280 * y) * (10_000_000 * r) >= d * (10_000_000 * r));
        assert(1280 * y >= d);
    }
    lemma_lone_energy(part);
    let e = features::gyro_energies(gyro, target_rate_hz, params)[b];
    assert(e == signal::total(features::powers(part)).plus(Single { bits: features::LOG_FLOOR }));
    y
}

} // verus!
