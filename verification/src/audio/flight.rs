//! What a lift-off is, told by the speeds.

use crate::audio::closeness;
use crate::audio::closeness::{near, positive};
use crate::audio::measures;
use crate::audio::order;
use crate::audio::sync;
use crate::color::bounded;
use crate::color::drift;
use crate::color::drift::{quarter, units_of, whole};
use crate::ieee::grid;
use crate::ieee::grid::Format;
use crate::ieee::laws;
use crate::ieee::number;
use crate::ieee::single::Single;
use vstd::arithmetic::div_mod::*;
use vstd::arithmetic::power2::*;
use vstd::prelude::*;

verus! {

/// Speeds from 0 to a million.
pub open spec fn are_speeds(s: Seq<Single>) -> bool {
    forall|i: int|
        0 <= i < s.len() ==> laws::is_finite(#[trigger] s[i]) && 0 <= units_of(s[i]) <= 0x10_0000
            * whole()
}

/// 2.0, 3.0 and 4.0.
proof fn lemma_integers()
    ensures
        positive(Single { bits: 0x4000_0000 }) && units_of(Single { bits: 0x4000_0000 }) == 2 * whole(),
        positive(Single { bits: 0x4040_0000 }) && units_of(Single { bits: 0x4040_0000 }) == 3 * whole(),
        positive(Single { bits: 0x4080_0000 }) && units_of(Single { bits: 0x4080_0000 }) == 4 * whole(),
        positive(Single { bits: 0x40a0_0000 }) && units_of(Single { bits: 0x40a0_0000 }) == 5 * whole(),
{
    drift::lemma_measures();
    bounded::lemma_fractions();
    bounded::lemma_curve_constants();
    let (a, b) = (Single { bits: 0x4000_0000 }, Single { bits: 0x4040_0000 });
    let (c, d) = (Single { bits: 0x4080_0000 }, Single { bits: 0x40a0_0000 });
    assert(a.number().index == 0x4000_0000 && b.number().index == 0x4040_0000);
    assert(c.number().index == 0x4080_0000);
    assert(d.number().index == 0x40a0_0000 && !d.number().negative);
    assert(units_of(d) == 20 * quarter()) by {
        reveal(units_of);
        lemma2_to64();
        assert(0x40a0_0000nat / 0x80_0000nat == 129 && 0x40a0_0000nat % 0x80_0000nat == 0x20_0000);
        let h = pow2(128) as int;
        lemma_pow2_adds(19, 128);
        assert((0x80_0000 + 0x20_0000) * h == 20 * (0x8_0000 * h)) by (nonlinear_arith);
    }
}

/// The floor is some speed between a thousandth and a million.
proof fn lemma_floor(speed: Seq<Single>)
    requires
        are_speeds(speed),
        speed.len() > 0,
    ensures
        ({
            let floor = sync::ground_floor(speed);
            let k = order::kth(speed, speed.len() / 10);
            &&& positive(floor)
            &&& 0x100_0000 <= units_of(floor) <= 0x10_0000 * whole()
            &&& units_of(k) <= units_of(floor)
            &&& floor == k || floor == (Single { bits: sync::LEAST_FLOOR })
            &&& 10 * measures::below(speed, k) <= speed.len()
        }),
{
    let n = (speed.len() / 10) as nat;
    drift::lemma_measures();
    assert forall|i: int| 0 <= i < speed.len() implies !(#[trigger] speed[i]).nan() by {
        assert(laws::is_finite(speed[i]));
    }
    measures::law_places_split_the_samples(speed, n);
    let k = order::kth(speed, n);
    let j = choose|j: int| 0 <= j < speed.len() && speed[j] == k;
    assert(laws::is_finite(speed[j]));
    let least = Single { bits: sync::LEAST_FLOOR };
    assert(least.number().index == 0x3a83_126f && !least.number().negative);
    assert(laws::is_finite(least) && 0x100_0000 <= units_of(least) <= whole()) by {
        reveal(units_of);
        lemma2_to64();
        assert(0x3a83_126fnat / 0x80_0000nat == 117 && 0x3a83_126fnat % 0x80_0000nat == 0x03_126f);
        let h = pow2(116) as int;
        lemma_pow2_strictly_increases(1, 116);
        assert((0x80_0000 + 0x03_126f) * h >= 0x100_0000) by (nonlinear_arith)
            requires
                h >= 2,
        ;
        grid::lemma_units_increase(Format::Single, 0x3a83_126f, 0x3f80_0000);
        crate::color::lut::identity::lemma_sizes();
    }
    drift::lemma_order(k, least);
}

/// A multiple of the floor.
proof fn lemma_multiple(floor: Single, c: Single, n: int)
    requires
        positive(floor),
        0x100_0000 <= units_of(floor) <= 0x10_0000 * whole(),
        positive(c),
        units_of(c) == n * whole(),
        1 <= n <= 5,
    ensures
        positive(floor.times(c)),
        near(units_of(floor.times(c)), n * units_of(floor), 1),
{
    let (w, u) = (whole(), units_of(floor));
    drift::lemma_measures();
    let v = u * (n * w);
    assert(v == (n * u) * w) by (nonlinear_arith)
        requires
            v == u * (n * w),
    ;
    assert(0x100_0000 * w <= v <= closeness::far() * w) by (nonlinear_arith)
        requires
            v == (n * u) * w,
            0x100_0000 <= u <= 0x10_0000 * w,
            1 <= n <= 5,
            w > 0,
            closeness::far() == 0x1000_0000_0000_0000 * w,
    {
        assert(n * u >= 0x100_0000);
        assert(n * u <= 5 * (0x10_0000 * w));
    }
    closeness::lemma_times(floor, c);
    closeness::lemma_cancel(units_of(floor.times(c)), n * u, 1, w);
}

/// Samples in so many seconds: their number times the rate, the fraction dropped.
pub proof fn law_samples_are_seconds_times_rate(n: int, rate: Single)
    requires
        n == 2 || n == 5,
        positive(rate),
        whole() <= units_of(rate) <= 0x10_0000 * whole(),
    ensures
        ({
            let c = if n == 2 { sync::LIFT_OFF_STAY_S } else { sync::LIFT_OFF_HOLD_S };
            let m = sync::samples_in(Single { bits: c }, rate) as int;
            &&& 0x40_0000 * (m * whole() - n * units_of(rate)) <= n * units_of(rate)
            &&& 0x40_0000 * (n * units_of(rate) - m * whole()) < n * units_of(rate) + 0x40_0000
                * whole()
        }),
{
    let w = whole();
    let c = Single { bits: if n == 2 { sync::LIFT_OFF_STAY_S } else { sync::LIFT_OFF_HOLD_S } };
    drift::lemma_measures();
    lemma_integers();
    assert(w >= 0x100_0000);
    lemma_multiple(rate, c, n);
    laws::law_times_commutes(rate, c);
    let p = c.times(rate);
    let u = units_of(p);
    assert(p.number().index < 0x7f80_0000 && !p.number().negative && u == grid::units(
        Format::Single,
        p.number().index as nat,
    )) by {
        reveal(units_of);
    }
    lemma_fundamental_div_mod(u, w);
    lemma_mod_bound(u, w);
    let m = u / w;
    closeness::lemma_half(u, n * units_of(rate), 1);
    assert(0 <= m <= 0x100_0000) by (nonlinear_arith)
        requires
            u == w * m + u % w,
            0 <= u % w < w,
            0 <= u <= 0xa0_0000 * w,
            w > 0,
    ;
    assert(number::whole(Format::Single, p.number()) == m);
    assert(p.trunc_u64() == m);
    assert(m * w == w * m) by (nonlinear_arith);
}

/// What is reported as a lift-off is one: the motion under way there reaches four
/// times the floor, it keeps twice the floor from its start until two seconds after
/// that and not right before its start, and of the five seconds from there on at
/// most half of the samples lie below three times the floor. The floor is no less
/// than a thousandth, and no more than a tenth of all samples are below it, unless
/// it is that thousandth. What is left open is rounding.
pub proof fn law_lift_off_is_flight(speed: Seq<Single>, rate: Single, k: usize) -> (r: (int, Single))
    requires
        sync::lifts_off(speed, rate, Some(k)),
        are_speeds(speed),
        speed.len() > 0,
    ensures
        ({
            let stay = sync::samples_in(Single { bits: sync::LIFT_OFF_STAY_S }, rate) as int;
            let hold = sync::samples_in(Single { bits: sync::LIFT_OFF_HOLD_S }, rate) as int;
            let floor = units_of(sync::ground_floor(speed));
            let all = 0x40_0000int;
            let (j, m) = r;
            let end = if j + hold < speed.len() {
                j + hold
            } else {
                speed.len() as int
            };
            &&& k <= j < speed.len() - stay
            &&& all * units_of(speed[j]) >= (all - 1) * (4 * floor)
            &&& forall|i: int|
                k <= i < j + stay ==> all * units_of(#[trigger] speed[i]) >= (all - 1) * (2 * floor)
            &&& k > 0 ==> all * units_of(speed[k - 1]) < (all + 1) * (2 * floor)
            &&& all * units_of(m) >= (all - 1) * (3 * floor)
            &&& 2 * measures::below(speed.subrange(j, end), m) <= end - j
            &&& 10 * measures::below(speed, order::kth(speed, speed.len() / 10)) <= speed.len()
            &&& units_of(order::kth(speed, speed.len() / 10)) <= floor
        }),
{
    let stay = sync::samples_in(Single { bits: sync::LIFT_OFF_STAY_S }, rate);
    let hold = sync::samples_in(Single { bits: sync::LIFT_OFF_HOLD_S }, rate);
    let floor = sync::ground_floor(speed);
    lemma_floor(speed);
    lemma_integers();
    let (two, three, four) = (
        Single { bits: sync::LIFT_OFF_MOVING },
        Single { bits: sync::LIFT_OFF_SUSTAIN },
        Single { bits: sync::LIFT_OFF_RISE },
    );
    lemma_multiple(floor, two, 2);
    lemma_multiple(floor, three, 3);
    lemma_multiple(floor, four, 4);
    let (a, b, c) = (floor.times(two), floor.times(three), floor.times(four));
    let j = choose|j: int|
        {
            &&& 0 <= j < speed.len() - stay
            &&& #[trigger] sync::flies_from(speed, j, stay, hold)
            &&& forall|i: int| 0 <= i < j ==> !#[trigger] sync::flies_from(speed, i, stay, hold)
            &&& sync::motion_starts(speed, k as int, j)
        };
    assert(laws::is_finite(speed[j]));
    drift::lemma_order(speed[j], c);
    assert forall|i: int| k <= i < j + stay implies 0x40_0000 * units_of(#[trigger] speed[i]) >= (
    0x40_0000 - 1) * (2 * units_of(floor)) by {
        assert(laws::is_finite(speed[i]));
        drift::lemma_order(speed[i], a);
        drift::lemma_order(a, speed[i]);
    }
    if k > 0 {
        assert(laws::is_finite(speed[k - 1]));
        drift::lemma_order(a, speed[k - 1]);
    }
    let end = sync::window_end(j as nat, hold, speed.len()) as int;
    let part = speed.subrange(j, end);
    assert forall|i: int| 0 <= i < part.len() implies !(#[trigger] part[i]).nan() by {
        assert(part[i] == speed[j + i]);
        assert(laws::is_finite(speed[j + i]));
    }
    let m = order::median(part);
    if part.len() > 0 {
        measures::law_median_is_the_middle(part);
        let i = choose|i: int| 0 <= i < part.len() && part[i] == m;
        assert(part[i] == speed[j + i]);
        assert(laws::is_finite(speed[j + i]));
    } else {
        drift::lemma_ends();
    }
    drift::lemma_order(m, b);
    assert(2 * measures::below(part, m) <= end - j);
    (j, m)
}

} // verus!
