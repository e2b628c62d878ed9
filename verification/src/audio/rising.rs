//! The first rise of an envelope, against the largest one.

use crate::audio::measures;
use crate::audio::order;
use crate::audio::signal;
use crate::audio::sync;
use crate::audio::takeoff;
use crate::color::amounts;
use crate::color::drift;
use crate::color::drift::{grain, quarter, units_of, whole, within};
use crate::color::lut::identity::close;
use crate::color::scale;
use crate::ieee::grid;
use crate::ieee::grid::Format;
use crate::ieee::laws;
use crate::ieee::single::Single;
use vstd::arithmetic::power2::*;
use vstd::prelude::*;

verus! {

/// The exact sum of some samples, in units.
pub open spec fn exact_total(s: Seq<Single>) -> int
    decreases s.len(),
{
    if s.len() == 0 {
        0
    } else {
        exact_total(s.drop_last()) + units_of(s.last())
    }
}

/// Samples from 0 to 1.
pub open spec fn in_unit(s: Seq<Single>) -> bool {
    forall|i: int|
        0 <= i < s.len() ==> Single::zero().at_most(#[trigger] s[i]) && s[i].at_most(Single::one())
}

/// By how much the `k` samples from `i` on exceed the `k` before, taken together.
pub open spec fn climb(s: Seq<Single>, i: int, k: int) -> int {
    exact_total(s.subrange(i, i + k)) - exact_total(s.subrange(i - k, i))
}

pub(crate) proof fn lemma_unit(x: Single)
    requires
        Single::zero().at_most(x),
        x.at_most(Single::one()),
    ensures
        within(x, 0, 4),
{
    drift::lemma_measures();
    drift::lemma_ends();
    assert(laws::is_finite(x));
    drift::lemma_order(Single::zero(), x);
    drift::lemma_order(x, Single::one());
}

/// Adding up is off by little.
pub(crate) proof fn lemma_total(s: Seq<Single>)
    requires
        in_unit(s),
        s.len() <= 1000,
    ensures
        within(signal::total(s), 0, 4 * s.len() as int),
        close(
            units_of(signal::total(s)),
            exact_total(s),
            (2 * (s.len() * (s.len() + 1))) * grain(),
        ),
        0 <= exact_total(s) <= (4 * s.len()) * quarter(),
    decreases s.len(),
{
    let (q, g) = (quarter(), grain());
    let n = s.len() as int;
    drift::lemma_measures();
    if n == 0 {
        let none = Single { bits: signal::NOTHING };
        assert(units_of(none) == 0) by {
            reveal(units_of);
            assert(grid::units(Format::Single, 0) == 0);
        }
        assert(0 * q == 0 && (2 * (0 * (0 + 1))) * g == 0);
    } else {
        let t = s.drop_last();
        assert forall|i: int| 0 <= i < t.len() implies Single::zero().at_most(#[trigger] t[i])
            && t[i].at_most(Single::one()) by {
            assert(t[i] == s[i]);
        }
        lemma_total(t);
        let (x, y) = (signal::total(t), s.last());
        assert(y == s[n - 1]);
        lemma_unit(y);
        assert(0 * q == 0);
        assert((4 * n) * q == (4 * (n - 1)) * q + 4 * q) by (nonlinear_arith);
        drift::lemma_plus(x, y, 0, 4 * n, 4 * n);
        assert((2 * (n * (n + 1))) * g == (2 * ((n - 1) * n)) * g + (4 * n) * g) by (nonlinear_arith);
    }
}

/// So is a mean.
pub(crate) proof fn lemma_mean(s: Seq<Single>)
    requires
        in_unit(s),
        1 <= s.len() <= 1000,
    ensures
        within(signal::mean(s), 0, 4),
        close(
            s.len() * units_of(signal::mean(s)),
            exact_total(s),
            (2 * (s.len() * (s.len() + 1)) + 5 * s.len()) * grain(),
        ),
{
    let (q, g, p) = (quarter(), grain(), whole());
    let n = s.len() as int;
    drift::lemma_measures();
    lemma_total(s);
    laws::law_small_integers_are_exact(n as u64);
    let (x, y) = (signal::total(s), Single::from_u64(n as u64));
    assert(units_of(y) == n * p) by {
        reveal(units_of);
    }
    let (ux, uy) = (units_of(x), units_of(y));
    assert(uy > 0) by (nonlinear_arith)
        requires
            uy == n * p,
            n >= 1,
            p > 0,
    ;
    assert(0 * q == 0 && 0 * uy == 0);
    assert(0 <= ux * p <= (4 * q) * uy) by (nonlinear_arith)
        requires
            0 <= ux <= (4 * n) * q,
            uy == n * p,
            p > 0,
    {
        assert(ux * p <= ((4 * n) * q) * p);
        assert(((4 * n) * q) * p == (4 * q) * (n * p));
    }
    drift::lemma_over(x, y, 0, 4, 4);
    let r = units_of(x.over(y));
    assert((n * r) * p == r * uy && (5 * g) * uy == ((5 * n) * g) * p) by (nonlinear_arith)
        requires
            uy == n * p,
    ;
    assert(n * r - ux <= (5 * n) * g) by (nonlinear_arith)
        requires
            (n * r) * p <= ux * p + ((5 * n) * g) * p,
            p > 0,
    ;
    assert(ux - n * r <= (5 * n) * g) by (nonlinear_arith)
        requires
            (n * r) * p >= ux * p - ((5 * n) * g) * p,
            p > 0,
    ;
    let m = 2 * (n * (n + 1));
    assert((m + 5 * n) * g == m * g + (5 * n) * g) by (nonlinear_arith);
}

proof fn lemma_part(s: Seq<Single>, from: int, to: int)
    requires
        in_unit(s),
        0 <= from <= to <= s.len(),
    ensures
        in_unit(s.subrange(from, to)),
{
    let part = s.subrange(from, to);
    assert forall|i: int| 0 <= i < part.len() implies Single::zero().at_most(#[trigger] part[i])
        && part[i].at_most(Single::one()) by {
        assert(part[i] == s[from + i]);
    }
}

/// A rise at a point is how much the second ahead, in mean, exceeds the second
/// behind: within a few millionths for samples from 0 to 1. Too near the ends it
/// is nothing.
pub proof fn law_rise_is_the_climb(s: Seq<Single>, k: nat, i: int)
    requires
        in_unit(s),
        1 <= k <= 1000,
        0 <= i < s.len(),
    ensures
        k <= i && i + k < s.len() ==> {
            let r = sync::rises(s, k)[i];
            &&& laws::is_finite(r)
            &&& close(k * units_of(r), climb(s, i, k as int), (4 * (k * k) + 18 * k) * grain())
        },
        !(k <= i && i + k < s.len()) ==> sync::rises(s, k)[i] == Single::zero(),
{
    if k <= i && i + k < s.len() {
        let (q, g) = (quarter(), grain());
        let n = k as int;
        let (a, b) = (s.subrange(i, i + k), s.subrange(i - k, i));
        drift::lemma_measures();
        lemma_part(s, i, i + k);
        lemma_part(s, i - k, i);
        lemma_mean(a);
        lemma_mean(b);
        let (x, y) = (signal::mean(a), signal::mean(b));
        assert(0 * q == 0);
        drift::lemma_minus(x, y, -4, 4, 4);
        let r = x.minus(y);
        let (ux, uy, ur) = (units_of(x), units_of(y), units_of(r));
        assert(n * ux - n * uy - (4 * n) * g <= n * ur <= n * ux - n * uy + (4 * n) * g)
            by (nonlinear_arith)
            requires
                ux - uy - 4 * g <= ur <= ux - uy + 4 * g,
                n >= 1,
        ;
        let m = 2 * (n * (n + 1)) + 5 * n;
        assert(2 * (m * g) + (4 * n) * g == (4 * (n * n) + 18 * n) * g) by (nonlinear_arith)
            requires
                m == 2 * (n * (n + 1)) + 5 * n,
        ;
    }
}

/// The greatest of some samples is one of them, where any is above zero.
pub(crate) proof fn lemma_peak(s: Seq<Single>, g: int)
    requires
        order::all_numbers(s),
        0 <= g < s.len(),
        Single::zero().less(s[g]),
        forall|j: int| 0 <= j < s.len() ==> (#[trigger] s[j]).at_most(s[g]),
    ensures
        signal::peak(s) == s[g],
{
    lemma_peak_bounds(s, g);
    let p = signal::peak(s);
    assert(s[g].at_most(p));
    assert(p.at_most(s[g]));
    assert(p.number().index == s[g].number().index && !p.number().negative && !s[g].number().negative);
}

proof fn lemma_peak_bounds(s: Seq<Single>, g: int)
    requires
        order::all_numbers(s),
        0 <= g < s.len(),
    ensures
        !signal::peak(s).nan(),
        s[g].at_most(signal::peak(s)),
        signal::peak(s) == Single::zero() || exists|j: int|
            0 <= j < s.len() && signal::peak(s) == #[trigger] s[j],
    decreases s.len(),
{
    let t = s.drop_last();
    assert forall|i: int| 0 <= i < t.len() implies !(#[trigger] t[i]).nan() by {
        assert(t[i] == s[i]);
    }
    let last = s.len() - 1;
    assert(s.last() == s[last] && !s[last].nan());
    if t.len() > 0 {
        let i = if g < t.len() {
            g
        } else {
            0
        };
        lemma_peak_bounds(t, i);
        assert(t[i] == s[i]);
        let p = signal::peak(t);
        if p != Single::zero() {
            let j = choose|j: int| 0 <= j < t.len() && p == #[trigger] t[j];
            assert(s[j] == t[j]);
        }
    }
    let p = signal::peak(t);
    assert(signal::peak(s) == p.greater_of(s[last]));
    if p.less(s[last]) {
        assert(signal::peak(s) == s[last]);
    } else {
        assert(signal::peak(s) == p);
    }
}

proof fn lemma_smallest_normal()
    ensures
        grid::units(Format::Single, laws::SMALLEST_NORMAL as nat) == 0x80_0000,
{
    lemma2_to64();
    grid::lemma_units_at(Format::Single, 0, 0x80_0000);
}

/// A fifth, as it is taken of the largest rise.
proof fn lemma_fifth(largest: Single)
    requires
        (Single { bits: laws::SMALLEST_NORMAL }).at_most(largest),
        laws::is_finite(largest),
    ensures
        ({
            let t = largest.times(Single { bits: takeoff::RISE_FRACTION });
            &&& laws::is_finite(t)
            &&& 0 < units_of(t) <= units_of(largest)
            &&& 999_999 * units_of(largest) <= 5_000_000 * units_of(t) <= 1_000_001 * units_of(
                largest,
            )
        }),
{
    reveal(units_of);
    let f = Format::Single;
    let share = Single { bits: takeoff::RISE_FRACTION };
    let c = largest.number().index as nat;
    let k = share.number().index as nat;
    let (u, v, p) = (grid::units(f, c), grid::units(f, k), pow2(149));
    let e = pow2(123);
    lemma2_to64();
    lemma_pow2_pos(123);
    lemma_pow2_adds(26, 123);
    lemma_pow2_adds(23, 126);
    assert(0x3e4c_cccdnat / 0x80_0000nat == 124 && 0x3e4c_cccdnat % 0x80_0000nat == 0x4c_cccd);
    assert(v == 13421773 * e);
    assert(p == 67108864 * e);
    grid::lemma_units_increase(f, laws::SMALLEST_NORMAL as nat, c);
    lemma_smallest_normal();
    let n = u * v;
    laws::law_nearest_exists(f, n, p);
    laws::law_rounding_keeps_values(f, c, p);
    assert(n * p <= (u * p) * p) by (nonlinear_arith)
        requires
            n == u * v,
            v <= p,
    ;
    laws::law_rounding_keeps_order(f, n, p, u * p, p);
    let j = grid::round_magnitude(f, n, p);
    let w = grid::units(f, j);
    grid::lemma_units_increase(f, j, c);
    scale::lemma_relative(n, p, j);
    let (a, b) = (w * p, u * p);
    assert(5 * n == b + u * e) by (nonlinear_arith)
        requires
            n == u * v,
            v == 13421773 * e,
            p == 67108864 * e,
            b == u * p,
    ;
    assert(b == 67108864 * (u * e)) by (nonlinear_arith)
        requires
            b == u * p,
            p == 67108864 * e,
    ;
    assert((w + 0x80_0000) * p <= 2 * b) by (nonlinear_arith)
        requires
            w <= u,
            0x80_0000 <= u,
            b == u * p,
    ;
    assert(w * p * 0x100_0000 == a * 0x100_0000);
    assert(999_999 * b <= 5_000_000 * a <= 1_000_001 * b);
    assert(999_999 * u <= 5_000_000 * w) by (nonlinear_arith)
        requires
            999_999 * b <= 5_000_000 * a,
            a == w * p,
            b == u * p,
            p > 0,
    ;
    assert(5_000_000 * w <= 1_000_001 * u) by (nonlinear_arith)
        requires
            5_000_000 * a <= 1_000_001 * b,
            a == w * p,
            b == u * p,
            p > 0,
    ;
}

/// The sustain measured at a point: the middle level of the ten seconds from it
/// on, over that of the two seconds before it, of twenty points each.
pub open spec fn sustain_from(s: Seq<Single>, f: int) -> Single {
    let before = order::median(s.subrange(if f < 40 { 0 } else { f - 40 }, f));
    let after = order::median(s.subrange(f, if f + 200 < s.len() { f + 200 } else { s.len() as int }));
    if (Single { bits: takeoff::SILENCE }).less(before) {
        after.over(before)
    } else {
        Single::zero()
    }
}

/// The first rise wins over the largest: the onset lies in the second that follows
/// the first point whose rise reaches a fifth of the largest one, and the sustain
/// is measured at that point, however large later rises are. So a rise is found
/// wherever there is one at all.
pub proof fn law_first_rise_wins(s: Seq<Single>, r: Option<(usize, Single)>, g: int)
    requires
        takeoff::rises_first(s, r),
        s.len() >= 41,
        0 <= g < s.len(),
        forall|j: int|
            0 <= j < s.len() ==> laws::is_finite(#[trigger] sync::rises(s, 20)[j]) && sync::rises(
                s,
                20,
            )[j].at_most(sync::rises(s, 20)[g]),
        (Single { bits: laws::SMALLEST_NORMAL }).at_most(sync::rises(s, 20)[g]),
    ensures
        r matches Some((onset, sustain)) && exists|f: int|
            {
                let rise = sync::rises(s, 20);
                &&& 20 <= f <= g
                &&& f + 20 < s.len()
                &&& f <= onset < f + 20
                &&& sustain == #[trigger] sustain_from(s, f)
                &&& 5_000_000 * units_of(rise[f]) >= 999_999 * units_of(rise[g])
                &&& forall|i: int|
                    0 <= i < f ==> 5_000_000 * units_of(#[trigger] rise[i]) < 1_000_001 * units_of(
                        rise[g],
                    )
            },
{
    let rise = sync::rises(s, 20);
    let zero = Single::zero();
    assert forall|i: int| 0 <= i < rise.len() implies !(#[trigger] rise[i]).nan() by {
        assert(laws::is_finite(rise[i]));
    }
    lemma_peak(rise, g);
    let largest = rise[g];
    lemma_fifth(largest);
    drift::lemma_ends();
    let t = largest.times(Single { bits: takeoff::RISE_FRACTION });
    drift::lemma_order(t, largest);
    assert(t.at_most(rise[g]));
    assert(r is Some);
    let (onset, sustain) = r->Some_0;
    let f = choose|f: usize| #[trigger]
        sync::first_reaching(rise, t, Some(f)) && takeoff::is_onset(s, f as nat, onset as nat)
            && sustain == takeoff::sustain_at(s, f as nat);
    drift::lemma_order(t, rise[f as int]);
    drift::lemma_order(t, zero);
    assert(rise[f as int] != zero);
    assert(20 <= f && f + 20 < s.len());
    if f > g {
        assert(!t.at_most(rise[g]));
    }
    assert forall|i: int| 0 <= i < f implies 5_000_000 * units_of(#[trigger] rise[i]) < 1_000_001
        * units_of(rise[g]) by {
        assert(!t.at_most(rise[i]));
        assert(laws::is_finite(rise[i]));
        drift::lemma_order(t, rise[i]);
    }
    assert(sustain == sustain_from(s, f as int));
}

/// The same in what the samples show: of an envelope from 0 to 1 that rises
/// somewhere by a thousandth or more, the onset lies in the second that follows
/// the first point at which the mean climbs by a fifth of the largest climb.
pub proof fn law_onset_follows_the_first_climb(s: Seq<Single>, r: Option<(usize, Single)>, g: int)
    requires
        takeoff::rises_first(s, r),
        in_unit(s),
        20 <= g,
        g + 20 < s.len(),
        forall|j: int|
            20 <= j && j + 20 < s.len() ==> sync::rises(s, 20)[j].at_most(
                #[trigger] sync::rises(s, 20)[g],
            ),
        50 * climb(s, g, 20) >= whole(),
    ensures
        r matches Some((onset, sustain)) && exists|f: int|
            {
                &&& 20 <= f <= g
                &&& f <= onset < f + 20
                &&& sustain == #[trigger] sustain_from(s, f)
                &&& 1000 * (climb(s, g, 20) - 5 * climb(s, f, 20)) <= whole()
                &&& forall|i: int|
                    20 <= i < f ==> 1000 * (5 * #[trigger] climb(s, i, 20) - climb(s, g, 20))
                        <= whole()
            },
{
    let rise = sync::rises(s, 20);
    let (e, p) = (grain(), whole());
    drift::lemma_measures();
    drift::lemma_ends();
    law_rise_is_the_climb(s, 20, g);
    let u = units_of(rise[g]);
    assert((4 * (20 * 20) + 18 * 20) * e == 1960 * e);
    assert(20 * u >= climb(s, g, 20) - 1960 * e);
    drift::lemma_order(Single::zero(), rise[g]);
    assert forall|j: int| 0 <= j < s.len() implies laws::is_finite(#[trigger] rise[j])
        && rise[j].at_most(rise[g]) by {
        law_rise_is_the_climb(s, 20, j);
        if 20 <= j && j + 20 < s.len() {
            assert(rise[j].at_most(rise[g]));
        }
    }
    let least = Single { bits: laws::SMALLEST_NORMAL };
    assert(least.at_most(rise[g])) by {
        assert(units_of(least) == 0x80_0000) by {
            reveal(units_of);
            lemma_smallest_normal();
        }
        assert(e >= 0x80_0000) by {
            lemma2_to64();
            lemma_pow2_strictly_increases(23, 123);
        }
        drift::lemma_order(least, rise[g]);
    }
    law_first_rise_wins(s, r, g);
    let (onset, sustain) = r->Some_0;
    let f = choose|f: int|
        {
            &&& 20 <= f <= g
            &&& f + 20 < s.len()
            &&& f <= onset < f + 20
            &&& sustain == #[trigger] sustain_from(s, f)
            &&& 5_000_000 * units_of(rise[f]) >= 999_999 * units_of(rise[g])
            &&& forall|i: int|
                0 <= i < f ==> 5_000_000 * units_of(#[trigger] rise[i]) < 1_000_001 * units_of(
                    rise[g],
                )
        };
    law_rise_is_the_climb(s, 20, f);
    assert(20 * u <= climb(s, g, 20) + 1960 * e);
    // No mean climbs by more than one.
    lemma_part(s, g, g + 20);
    lemma_part(s, g - 20, g);
    lemma_total(s.subrange(g, g + 20));
    lemma_total(s.subrange(g - 20, g));
    assert(climb(s, g, 20) <= 20 * p);
    assert forall|i: int| 20 <= i < f implies 1000 * (5 * #[trigger] climb(s, i, 20) - climb(s, g, 20))
        <= p by {
        law_rise_is_the_climb(s, 20, i);
        assert(5_000_000 * units_of(rise[i]) < 1_000_001 * u);
    }
}

/// The first sustained rise is the first that counts: of an envelope from 0 to 1 it
/// is found no later than the largest climb, it climbs by the asked-for part of the
/// largest climb, and no point before it does. What is left open is rounding.
pub proof fn law_sustained_rise_is_the_first(
    s: Seq<Single>,
    window: usize,
    part: Single,
    r: Option<usize>,
    g: int,
)
    requires
        sync::rises_at(s, window, part, r),
        in_unit(s),
        1 <= window <= 1000,
        within(part, 0, 4),
        window <= g,
        g + window < s.len(),
        forall|j: int|
            window <= j && j + window < s.len() ==> sync::rises(s, window as nat)[j].at_most(
                #[trigger] sync::rises(s, window as nat)[g],
            ),
        units_of(part) * (climb(s, g, window as int) - ((4 * (window * window) + 18 * window) * grain()))
            > (5 * window) * (grain() * whole()),
    ensures
        r matches Some(f) && {
            let k = window as int;
            let slack = (8 * (k * k) + 41 * k) * (grain() * whole());
            let wanted = units_of(part) * climb(s, g, k);
            &&& k <= f <= g
            &&& whole() * climb(s, f as int, k) >= wanted - slack
            &&& forall|i: int| k <= i < f ==> whole() * #[trigger] climb(s, i, k) < wanted + slack
        },
{
    let k = window as int;
    let rise = sync::rises(s, window as nat);
    let (e, w) = (grain(), whole());
    let err = (4 * (k * k) + 18 * k) * e;
    drift::lemma_measures();
    drift::lemma_ends();
    law_rise_is_the_climb(s, window as nat, g);
    let largest = rise[g];
    let (u, p, c) = (units_of(largest), units_of(part), climb(s, g, k));
    // The largest rise is above zero.
    assert(u > 0) by (nonlinear_arith)
        requires
            c - err <= k * u,
            p * (c - err) > (5 * k) * (e * w),
            p >= 0,
            k >= 1,
            e > 0,
            w > 0,
    {
        assert((5 * k) * (e * w) > 0);
        assert(p * (c - err) <= p * (k * u));
        if u <= 0 {
            assert(k * u <= 0);
            assert(p * (k * u) <= 0);
        }
    }
    drift::lemma_order(Single::zero(), largest);
    assert forall|j: int| 0 <= j < s.len() implies !(#[trigger] rise[j]).nan() && laws::is_finite(rise[j])
        && rise[j].at_most(largest) by {
        law_rise_is_the_climb(s, window as nat, j);
        if !(k <= j && j + k < s.len()) {
            assert(rise[j] == Single::zero());
        }
    }
    lemma_peak(rise, g);
    assert(within(largest, 0, 4)) by {
        lemma_part(s, g, g + k);
        lemma_part(s, g - k, g);
        lemma_mean(s.subrange(g, g + k));
        lemma_mean(s.subrange(g - k, g));
        let (x, y) = (signal::mean(s.subrange(g, g + k)), signal::mean(s.subrange(g - k, g)));
        drift::lemma_minus(x, y, -4, 4, 4);
    }
    // The threshold.
    let held = part.clamped(Single::zero(), Single::one());
    drift::lemma_clamp(part);
    assert(units_of(held) == p);
    assert(laws::is_finite(held));
    drift::lemma_scaled(largest, held, 0, 4, 4, 0, 4, 4);
    let t = largest.times(held);
    let v = units_of(t);
    assert(close(v * w, u * p, (5 * e) * w));
    assert(v > 0) by (nonlinear_arith)
        requires
            close(v * w, u * p, (5 * e) * w),
            c - err <= k * u,
            p * (c - err) > (5 * k) * (e * w),
            p >= 0,
            k >= 1,
            w > 0,
    {
        assert(p * (c - err) <= p * (k * u));
        assert(p * (k * u) == k * (u * p));
        assert(k * (u * p) > k * (5 * (e * w)));
        assert(u * p > 5 * (e * w));
        assert((5 * e) * w == 5 * (e * w));
    }
    laws::law_times_one(largest);
    drift::lemma_order(held, Single::one());
    assert(p > 0) by {
        if p == 0 {
            assert(0 * (c - err) == 0);
            assert((5 * k) * (e * w) > 0) by (nonlinear_arith)
                requires
                    k >= 1,
                    e > 0,
                    w > 0,
            ;
        }
    }
    assert(!held.number().negative) by {
        reveal(units_of);
    }
    laws::law_times_commutes(largest, held);
    laws::law_times_keeps_order(held, Single::one(), largest);
    assert(t.at_most(largest));
    assert(r is Some);
    let f = r->Some_0 as int;
    drift::lemma_order(t, rise[f]);
    drift::lemma_order(t, Single::zero());
    assert(rise[f] != Single::zero());
    if f > g {
        assert(!t.at_most(rise[g]));
    }
    law_rise_is_the_climb(s, window as nat, f);
    let slack = (8 * (k * k) + 41 * k) * (e * w);
    let wanted = p * c;
    lemma_slack(units_of(rise[f]), climb(s, f, k), v, u, p, c, k, w, e);
    assert forall|i: int| k <= i < f implies w * #[trigger] climb(s, i, k) < wanted + slack by {
        law_rise_is_the_climb(s, window as nat, i);
        assert(!t.at_most(rise[i]));
        drift::lemma_order(t, rise[i]);
        lemma_slack(units_of(rise[i]), climb(s, i, k), v, u, p, c, k, w, e);
    }
}

/// From rises back to climbs.
proof fn lemma_slack(x: int, y: int, v: int, u: int, p: int, c: int, k: int, w: int, e: int)
    requires
        close(k * x, y, (4 * (k * k) + 18 * k) * e),
        close(k * u, c, (4 * (k * k) + 18 * k) * e),
        close(v * w, u * p, (5 * e) * w),
        0 <= p <= w,
        k >= 1,
        w > 0,
        e > 0,
    ensures
        x >= v ==> w * y >= p * c - (8 * (k * k) + 41 * k) * (e * w),
        x < v ==> w * y < p * c + (8 * (k * k) + 41 * k) * (e * w),
{
    let m = 4 * (k * k) + 18 * k;
    let n = e * w;
    assert((5 * e) * w == 5 * n) by (nonlinear_arith)
        requires
            n == e * w,
    ;
    assert(w * (k * x) - m * n <= w * y <= w * (k * x) + m * n) by (nonlinear_arith)
        requires
            -(m * e) <= k * x - y <= m * e,
            w > 0,
            n == e * w,
    {
        assert(-(w * (m * e)) <= w * (k * x - y) <= w * (m * e));
        assert(w * (m * e) == m * n);
    }
    assert(p * c - m * n <= k * (u * p) <= p * c + m * n) by (nonlinear_arith)
        requires
            -(m * e) <= k * u - c <= m * e,
            0 <= p <= w,
            n == e * w,
            m >= 0,
            e > 0,
    {
        let d = k * u - c;
        assert(p * (k * u) == p * c + p * d);
        assert(p * (k * u) == k * (u * p));
        assert(-(p * (m * e)) <= p * d <= p * (m * e));
        assert(p * (m * e) <= w * (m * e));
        assert(w * (m * e) == m * n);
    }
    assert(k * (u * p) - (5 * k) * n <= k * (v * w) <= k * (u * p) + (5 * k) * n) by (nonlinear_arith)
        requires
            close(v * w, u * p, 5 * n),
            k >= 1,
    ;
    assert(x >= v ==> w * (k * x) >= k * (v * w)) by (nonlinear_arith)
        requires
            k >= 1,
            w > 0,
    {
        if x >= v {
            assert(k * x >= k * v);
            assert(w * (k * x) >= w * (k * v));
        }
    }
    assert(x < v ==> w * (k * x) < k * (v * w)) by (nonlinear_arith)
        requires
            k >= 1,
            w > 0,
    {
        if x < v {
            assert(k * x < k * v);
            assert(w * (k * x) < w * (k * v));
        }
    }
    assert(2 * (m * n) + (5 * k) * n == (8 * (k * k) + 41 * k) * n) by (nonlinear_arith)
        requires
            m == 4 * (k * k) + 18 * k,
    ;
}

/// An envelope is taken over its own maximum: where the maximum is a normal value
/// above next to nothing it becomes one, and no level is above it. Levels keep
/// their order.
pub proof fn law_envelope_peaks_at_one(s: Seq<Single>, g: int, i: int)
    requires
        0 <= g < s.len(),
        0 <= i < s.len(),
        forall|j: int|
            0 <= j < s.len() ==> laws::is_finite(#[trigger] s[j]) && s[j].at_most(s[g]),
        (Single { bits: takeoff::FLAT }).less(s[g]),
        Single::zero().at_most(s[i]),
    ensures
        takeoff::over_peak(s).len() == s.len(),
        takeoff::over_peak(s)[g] == Single::one(),
        takeoff::over_peak(s)[i].at_most(Single::one()),
        Single::zero().at_most(takeoff::over_peak(s)[i]),
        1000 * (units_of(takeoff::over_peak(s)[i]) * units_of(s[g]) - units_of(s[i]) * whole())
            <= units_of(s[g]) * whole(),
        1000 * (units_of(s[i]) * whole() - units_of(takeoff::over_peak(s)[i]) * units_of(s[g]))
            <= units_of(s[g]) * whole(),
{
    let peak = s[g];
    let (q, e, w) = (quarter(), grain(), whole());
    drift::lemma_measures();
    drift::lemma_ends();
    let flat = Single { bits: takeoff::FLAT };
    assert(flat.number().index == 0x3089_705f && !flat.number().negative);
    assert forall|j: int| 0 <= j < s.len() implies !(#[trigger] s[j]).nan() by {
        assert(laws::is_finite(s[j]));
    }
    assert(Single::zero().less(peak));
    lemma_peak(s, g);
    drift::lemma_order(Single::zero(), peak);
    drift::lemma_order(Single::zero(), s[i]);
    drift::lemma_order(s[i], peak);
    laws::law_over_itself(peak);
    let (x, p) = (units_of(s[i]), units_of(peak));
    assert((0 * q) * p <= x * w <= (4 * q) * p) by (nonlinear_arith)
        requires
            0 <= x <= p,
            w == 4 * q,
            q > 0,
    ;
    drift::lemma_over(s[i], peak, 0, 4, 4);
    let r = s[i].over(peak);
    drift::lemma_order(r, Single::one());
    drift::lemma_order(Single::zero(), r);
    assert(1000 * ((5 * e) * p) <= p * w) by (nonlinear_arith)
        requires
            w == 0x400_0000 * e,
            p > 0,
            e > 0,
    ;
}

/// The level that marks an onset: seven tenths of the level before the rise and
/// three of the mean after it, counted in two-hundredths.
proof fn lemma_onset_level(s: Seq<Single>, f: int)
    requires
        in_unit(s),
        1 <= f,
        f + 20 <= s.len(),
    ensures
        ({
            let t = takeoff::onset_level(s, f as nat);
            let before = order::median(s.subrange(if f < 40 { 0 } else { f - 40 }, f));
            let after = exact_total(s.subrange(f, f + 20));
            &&& laws::is_finite(t)
            &&& close(200 * units_of(t), 140 * units_of(before) + 3 * after, 8000 * grain())
        }),
{
    let (q, g, w) = (quarter(), grain(), whole());
    drift::lemma_measures();
    let from = if f < 40 {
        0int
    } else {
        f - 40
    };
    let part = s.subrange(from, f);
    lemma_part(s, from, f);
    assert forall|i: int| 0 <= i < part.len() implies !(#[trigger] part[i]).nan() by {
        assert(Single::zero().at_most(part[i]));
    }
    measures::law_median_is_the_middle(part);
    let before = order::median(part);
    assert(before == takeoff::level_before(s, f as nat));
    let j = choose|j: int| 0 <= j < part.len() && part[j] == before;
    lemma_unit(part[j]);
    let tail = s.subrange(f, f + 20);
    lemma_part(s, f, f + 20);
    lemma_mean(tail);
    let after = signal::mean(tail);
    assert(after == takeoff::level_from(s, f, 20));
    let share = Single { bits: takeoff::ONSET_FRACTION };
    amounts::lemma_three_tenths();
    drift::lemma_minus(after, before, -4, 4, 4);
    let d = after.minus(before);
    assert(within(share, 0, 2));
    drift::lemma_scaled(d, share, -4, 4, 2, -2, 2, 2);
    let p = d.times(share);
    drift::lemma_plus(before, p, -2, 6, 6);
    let t = before.plus(p);
    assert(t == takeoff::onset_level(s, f as nat));
    let (ub, ua, ud, up, us) = (
        units_of(before),
        units_of(after),
        units_of(d),
        units_of(p),
        units_of(share),
    );
    assert(close(10 * up, 3 * ud, 40 * g)) by (nonlinear_arith)
        requires
            close(up * w, ud * us, ((2 + 1) * g) * w),
            close(10 * us, 3 * w, 10 * g),
            -(4 * q) <= ud <= 4 * q,
            w == 4 * q,
            w > 0,
            g > 0,
    {
        let k = 10 * us - 3 * w;
        assert(10 * (ud * us) == 3 * ud * w + ud * k);
        assert(-(w * (10 * g)) <= ud * k <= w * (10 * g));
        assert(10 * (up * w) - 3 * ud * w == (10 * up - 3 * ud) * w);
        assert(-((40 * g) * w) <= (10 * up - 3 * ud) * w <= (40 * g) * w);
    }
    let sum = exact_total(tail);
    assert((2 * (20 * (20 + 1)) + 5 * 20) * g == 940 * g);
    assert(close(20 * ua, sum, 940 * g));
}

/// Three points together, against a level.
proof fn lemma_loud(s: Seq<Single>, i: int, t: Single)
    requires
        in_unit(s),
        0 <= i,
        i + 3 <= s.len(),
        laws::is_finite(t),
    ensures
        takeoff::is_loud(s, i, t) ==> 3 * units_of(t) <= exact_total(s.subrange(i, i + 3)) + 39 * grain(),
        !takeoff::is_loud(s, i, t) ==> 3 * units_of(t) > exact_total(s.subrange(i, i + 3)) - 39
            * grain(),
{
    let g = grain();
    let part = s.subrange(i, i + 3);
    drift::lemma_measures();
    lemma_part(s, i, i + 3);
    lemma_mean(part);
    let three = Single::from_u64(3);
    assert(three == (Single { bits: takeoff::THREE })) by {
        laws::law_small_integers_are_exact(3);
        crate::color::bounded::lemma_fractions();
        let other = Single { bits: 0x4040_0000 };
        assert(other.number().index == 0x4040_0000 && !other.number().negative);
        reveal(units_of);
        let (j, k) = (three.number().index as nat, 0x4040_0000nat);
        if j < k {
            grid::lemma_units_increase(Format::Single, j, k);
            grid::lemma_units_step(Format::Single, j);
            grid::lemma_units_increase(Format::Single, j + 1, k);
        } else if k < j {
            grid::lemma_units_step(Format::Single, k);
            grid::lemma_units_increase(Format::Single, k + 1, j);
        }
        assert(three.number() == other.number());
    }
    let m = signal::mean(part);
    assert((2 * (3 * (3 + 1)) + 5 * 3) * g == 39 * g);
    drift::lemma_order(t, m);
}

/// The onset is where the level crosses three tenths of the rise: it is the first
/// point, in the second after the rise is first felt, whose three samples are in
/// mean as loud as the level before the rise and three tenths of the way to the
/// mean of that second. Where no point is, it is where the rise is first felt.
/// What is left open is less than a thousandth.
pub proof fn law_onset_is_at_three_tenths(s: Seq<Single>, f: int, onset: int)
    requires
        takeoff::is_onset(s, f as nat, onset as nat),
        in_unit(s),
        1 <= f,
        f + 20 <= s.len(),
        0 <= onset,
    ensures
        ({
            let before = units_of(
                order::median(s.subrange(if f < 40 { 0 } else { f - 40 }, f)),
            );
            let after = exact_total(s.subrange(f, f + 20));
            let mark = 420 * before + 9 * after;
            let end = if f + 22 < s.len() { f + 20 } else { s.len() - 2 };
            ||| {
                &&& f <= onset < end
                &&& 1000 * (mark - 200 * exact_total(s.subrange(onset, onset + 3))) <= whole()
                &&& forall|i: int|
                    f <= i < onset ==> 1000 * (200 * exact_total(#[trigger] s.subrange(i, i + 3)) - mark)
                        < whole()
            }
            ||| {
                &&& onset == f
                &&& forall|i: int|
                    f <= i < end ==> 1000 * (200 * exact_total(#[trigger] s.subrange(i, i + 3)) - mark)
                        < whole()
            }
        }),
{
    drift::lemma_measures();
    lemma_onset_level(s, f);
    let t = takeoff::onset_level(s, f as nat);
    let before = units_of(order::median(s.subrange(if f < 40 { 0 } else { f - 40 }, f)));
    let after = exact_total(s.subrange(f, f + 20));
    let mark = 420 * before + 9 * after;
    let end = takeoff::onset_end(f as nat, s.len());
    if exists|i: int| f <= i < end && #[trigger] takeoff::is_loud(s, i, t) {
        lemma_loud(s, onset, t);
        assert forall|i: int| f <= i < onset implies 1000 * (200 * exact_total(
            #[trigger] s.subrange(i, i + 3),
        ) - mark) < whole() by {
            assert(!takeoff::is_loud(s, i, t));
            lemma_loud(s, i, t);
        }
    } else {
        assert forall|i: int| f <= i < end implies 1000 * (200 * exact_total(
            #[trigger] s.subrange(i, i + 3),
        ) - mark) < whole() by {
            assert(!takeoff::is_loud(s, i, t));
            lemma_loud(s, i, t);
        }
    }
}

} // verus!
