//! What normalizing an envelope makes of it, in exact arithmetic.

use crate::audio::rising;
use crate::audio::rising::{exact_total, in_unit};
use crate::audio::signal;
use crate::audio::sync;
use crate::color::drift;
use crate::color::drift::{grain, quarter, units_of, whole, within};
use crate::color::lut::identity;
use crate::color::lut::identity::close;
use crate::ieee::grid;
use crate::ieee::grid::Format;
use crate::ieee::laws;
use crate::ieee::root;
use crate::ieee::single::Single;
use vstd::arithmetic::power2::*;
use vstd::prelude::*;

verus! {

/// Some magnitude is nearest to a root, no later than one that stays above it.
proof fn lemma_root_found(f: Format, k: nat, n: nat) -> (j: nat)
    requires
        root::root_stays_under(f, k, n),
        k < f.infinity(),
    ensures
        root::nearest_root(f, j, n),
        j <= k,
    decreases k,
{
    if root::root_reaches(f, k, n) {
        k
    } else {
        lemma_root_found(f, (k - 1) as nat, n)
    }
}

/// A square root of a value from 0 to 1, squared again.
pub(crate) proof fn lemma_root(v: Single)
    requires
        within(v, 0, 4),
    ensures
        within(v.sqrt(), 0, 5),
        close(units_of(v.sqrt()) * units_of(v.sqrt()), units_of(v) * whole(), (10 * grain()) * whole()),
{
    let f = Format::Single;
    let (w, g, q) = (whole(), grain(), quarter());
    drift::lemma_measures();
    identity::lemma_sizes();
    reveal(units_of);
    assert(grid::units(f, 0) == 0);
    let i = v.number().index as nat;
    if i == 0 {
        assert(v.sqrt().number() == v.number());
        let (x, y) = (units_of(v.sqrt()), units_of(v));
        assert(x == 0 && y == 0);
        assert(x * x == 0 && y * w == 0) by (nonlinear_arith)
            requires
                x == 0,
                y == 0,
        ;
        assert((10 * g) * w >= 0) by (nonlinear_arith)
            requires
                g > 0,
                w > 0,
        ;
    } else {
        assert(!v.number().negative) by {
            if v.number().negative {
                grid::lemma_units_increase(f, 0, i);
                grid::lemma_units_step(f, 0);
                grid::lemma_units_increase(f, 1, i);
            }
        }
        let n = grid::units(f, i) * pow2(149);
        // The root stays below the first value above one.
        let one = 0x3f80_0000nat;
        let a = grid::units(f, one);
        grid::lemma_units_step(f, one);
        let b = grid::units(f, one + 1);
        assert(n <= a * a) by (nonlinear_arith)
            requires
                n == grid::units(f, i) * pow2(149),
                grid::units(f, i) <= w,
                a == w,
                w == pow2(149),
        ;
        let mid = grid::twice_midpoint(f, one);
        assert(4 * n < mid * mid) by (nonlinear_arith)
            requires
                n <= a * a,
                mid == a + b,
                b > a,
        ;
        let k = lemma_root_found(f, one, n);
        let z = root::round_root(f, n);
        assert(root::nearest_root(f, z, n));
        root::lemma_root_is(f, k, n);
        assert(z == k);
        assert(v.sqrt().number() == (crate::ieee::number::Number { negative: false, index: k as u64 }));
        grid::lemma_units_increase(f, k, one);
        let u = grid::units(f, k);
        let h = lemma_steps(k);
        let (m, e) = (u as int, 9 * g);
        if k > 0 {
            let low = grid::twice_midpoint(f, (k - 1) as nat) as int;
            assert(low >= 2 * m - e);
            assert(low * low <= 4 * n);
            if 2 * m - e >= 0 {
                assert((2 * m - e) * (2 * m - e) <= low * low) by (nonlinear_arith)
                    requires
                        0 <= 2 * m - e <= low,
                ;
            }
        }
        let high = grid::twice_midpoint(f, k) as int;
        assert(high <= 2 * m + e);
        assert(4 * n <= high * high);
        assert(high * high <= (2 * m + e) * (2 * m + e)) by (nonlinear_arith)
            requires
                0 <= high <= 2 * m + e,
        ;
        lemma_square(m, e, n as int, k, w, g);
        assert(units_of(v.sqrt()) == m && units_of(v) * w == n);
    }
}

/// The steps to the neighbours of a magnitude up to one.
proof fn lemma_steps(k: nat) -> (h: nat)
    requires
        k <= 0x3f80_0000,
    ensures
        grid::units(Format::Single, k + 1) - grid::units(Format::Single, k) <= 9 * grain(),
        k > 0 ==> grid::units(Format::Single, k) - grid::units(Format::Single, (k - 1) as nat) <= 9
            * grain(),
{
    let f = Format::Single;
    let g = grain();
    drift::lemma_measures();
    identity::lemma_sizes();
    lemma_step(k);
    if k > 0 {
        lemma_step((k - 1) as nat);
    }
    0
}

proof fn lemma_step(k: nat)
    requires
        k <= 0x3f80_0000,
    ensures
        grid::units(Format::Single, k + 1) - grid::units(Format::Single, k) <= 9 * grain(),
{
    let f = Format::Single;
    let g = grain();
    drift::lemma_measures();
    identity::lemma_sizes();
    let (e, r) = grid::lemma_split(f, k);
    let w = pow2(e);
    grid::lemma_units_at(f, e, (r + 1) as nat);
    assert(k + 1 == e * f.binade() + (r + 1));
    assert((r + 1) * w == r * w + w) by (nonlinear_arith);
    grid::lemma_units_increase(f, k, 0x3f80_0000);
    let u = grid::units(f, k);
    lemma2_to64();
    assert(g >= 1);
    if e == 0 {
        assert(w == 1);
    } else {
        assert(0x80_0000 * w <= u) by (nonlinear_arith)
            requires
                0x80_0000 <= r,
                u == r * w,
        ;
    }
}

proof fn lemma_square(m: int, e: int, n: int, k: nat, w: int, g: int)
    requires
        0 <= m <= w,
        e == 9 * g,
        4 * n <= (2 * m + e) * (2 * m + e),
        k > 0 && 2 * m - e >= 0 ==> (2 * m - e) * (2 * m - e) <= 4 * n,
        k == 0 ==> m == 0,
        n >= 0,
        w == 0x400_0000 * g,
        g > 0,
    ensures
        close(m * m, n, (10 * g) * w),
{
    assert(n - m * m <= (10 * g) * w) by (nonlinear_arith)
        requires
            4 * n <= (2 * m + e) * (2 * m + e),
            0 <= m <= w,
            e == 9 * g,
            w == 0x400_0000 * g,
            g > 0,
    {
        assert((2 * m + e) * (2 * m + e) == 4 * (m * m) + 4 * (m * e) + e * e);
        assert(m * e <= w * e);
        assert(e * e <= e * w);
        assert(4 * (n - m * m) <= 5 * (e * w));
        assert(5 * (e * w) == 45 * (g * w));
    }
    if 2 * m - e >= 0 && k > 0 {
        assert(m * m - n <= (10 * g) * w) by (nonlinear_arith)
            requires
                (2 * m - e) * (2 * m - e) <= 4 * n,
                0 <= m <= w,
                e == 9 * g,
                g > 0,
        {
            assert((2 * m - e) * (2 * m - e) == 4 * (m * m) - 4 * (m * e) + e * e);
            assert(m * e <= w * e);
            assert(e * e >= 0);
        }
    } else {
        assert(m * m - n <= (10 * g) * w) by (nonlinear_arith)
            requires
                2 * m < e || m == 0,
                0 <= m <= w,
                n >= 0,
                e == 9 * g,
                g > 0,
        {
            assert(m * m <= e * w);
        }
    }
}

/// Squared distances of some samples from a place, added up.
pub open spec fn scatter(s: Seq<Single>, m: int) -> int
    decreases s.len(),
{
    if s.len() == 0 {
        0
    } else {
        scatter(s.drop_last(), m) + (units_of(s.last()) - m) * (units_of(s.last()) - m)
    }
}

/// A squared distance.
proof fn lemma_distance(x: Single, m: Single)
    requires
        within(x, 0, 4),
        within(m, 0, 4),
    ensures
        ({
            let d = x.minus(m);
            let e = units_of(x) - units_of(m);
            &&& within(d, -4, 4)
            &&& close(units_of(d), e, 4 * grain())
            &&& within(d.times(d), 0, 4)
            &&& close(units_of(d.times(d)) * whole(), e * e, (14 * grain()) * whole())
        }),
{
    let (w, g, q) = (whole(), grain(), quarter());
    drift::lemma_measures();
    drift::lemma_minus(x, m, -4, 4, 4);
    let d = x.minus(m);
    let (u, e) = (units_of(d), units_of(x) - units_of(m));
    assert((0 * q) * w <= u * u <= (4 * q) * w) by (nonlinear_arith)
        requires
            -w <= u <= w,
            w == 4 * q,
    ;
    drift::lemma_times(d, d, 0, 4, 4);
    let p = units_of(d.times(d));
    assert(close(p * w, e * e, (14 * g) * w)) by (nonlinear_arith)
        requires
            close(p * w, u * u, ((4 + 1) * g) * w),
            close(u, e, 4 * g),
            -w <= u <= w,
            -w <= e <= w,
            g > 0,
            w > 0,
    {
        assert(u * u - e * e == (u - e) * (u + e));
        let (a, b) = (u - e, u + e);
        assert(-((4 * g) * (2 * w)) <= a * b <= (4 * g) * (2 * w));
    }
}

/// Squares of distances are samples from 0 to 1, and add up to the scatter.
proof fn lemma_scatter(s: Seq<Single>, m: Single)
    requires
        in_unit(s),
        within(m, 0, 4),
    ensures
        in_unit(sync::squares(s, m)),
        close(
            exact_total(sync::squares(s, m)) * whole(),
            scatter(s, units_of(m)),
            (s.len() * (14 * grain())) * whole(),
        ),
    decreases s.len(),
{
    let (w, g) = (whole(), grain());
    drift::lemma_measures();
    drift::lemma_ends();
    let all = sync::squares(s, m);
    assert forall|i: int| 0 <= i < all.len() implies Single::zero().at_most(#[trigger] all[i])
        && all[i].at_most(Single::one()) by {
        assert(Single::zero().at_most(s[i]));
        rising::lemma_unit(s[i]);
        lemma_distance(s[i], m);
        drift::lemma_order(Single::zero(), all[i]);
        drift::lemma_order(all[i], Single::one());
    }
    if s.len() > 0 {
        let t = s.drop_last();
        assert forall|i: int| 0 <= i < t.len() implies Single::zero().at_most(#[trigger] t[i])
            && t[i].at_most(Single::one()) by {
            assert(t[i] == s[i]);
        }
        lemma_scatter(t, m);
        assert(all.drop_last() =~= sync::squares(t, m));
        let x = s[s.len() - 1];
        assert(Single::zero().at_most(s[s.len() - 1]));
        rising::lemma_unit(x);
        lemma_distance(x, m);
        let (n, a, b) = (s.len() as int, exact_total(all.drop_last()), units_of(all.last()));
        assert(all.last() == x.minus(m).times(x.minus(m)));
        assert((a + b) * w == a * w + b * w) by (nonlinear_arith);
        assert((n * (14 * g)) * w == ((n - 1) * (14 * g)) * w + (14 * g) * w) by (nonlinear_arith);
    } else {
        assert(0 * w == 0 && (0 * (14 * g)) * w == 0);
    }
}

/// Normalizing takes the mean off and divides by the standard deviation: the
/// deviation, squared and times the number of samples, is their scatter around the
/// mean, and each sample comes out as its distance from the mean over the
/// deviation. What is left open is rounding.
pub proof fn law_normalizing_centers_and_scales(s: Seq<Single>, i: int)
    requires
        in_unit(s),
        1 <= s.len() <= 1000,
        0 <= i < s.len(),
        !sync::is_constant(s),
        whole() <= 1000 * units_of(sync::deviation(s)),
    ensures
        ({
            let n = s.len() as int;
            let m = units_of(signal::mean(s));
            let d = units_of(sync::deviation(s));
            let z = units_of(sync::standardized(s)[i]);
            let k = grain() * whole();
            &&& close(n * m, exact_total(s), (2 * (n * (n + 1)) + 5 * n) * grain())
            &&& close(n * (d * d), scatter(s, m), (2 * (n * n) + 31 * n) * k)
            &&& close(z * d, (units_of(s[i]) - m) * whole(), 5010 * k)
        }),
{
    let (w, g, q) = (whole(), grain(), quarter());
    let n = s.len() as int;
    let k = g * w;
    drift::lemma_measures();
    drift::lemma_ends();
    rising::lemma_mean(s);
    let mean = signal::mean(s);
    lemma_scatter(s, mean);
    let sq = sync::squares(s, mean);
    rising::lemma_mean(sq);
    let v = signal::mean(sq);
    lemma_root(v);
    let dev = v.sqrt();
    assert(dev == sync::deviation(s));
    let (m, uv, d, total) = (units_of(mean), units_of(v), units_of(dev), exact_total(sq));
    let c = scatter(s, m);
    // n v w is the scatter.
    let e = 2 * (n * (n + 1)) + 5 * n;
    assert(close((n * uv) * w, total * w, e * k)) by (nonlinear_arith)
        requires
            close(n * uv, total, e * g),
            k == g * w,
            w > 0,
    {
        let x = n * uv - total;
        assert(-((e * g) * w) <= x * w <= (e * g) * w);
        assert((e * g) * w == e * k);
    }
    assert((n * (14 * g)) * w == (14 * n) * k && ((10 * g) * w) == 10 * k) by (nonlinear_arith)
        requires
            k == g * w,
    ;
    assert(close(n * (d * d), (n * uv) * w, (10 * n) * k)) by (nonlinear_arith)
        requires
            close(d * d, uv * w, 10 * k),
            n >= 1,
    {
        let x = d * d - uv * w;
        assert(-(n * (10 * k)) <= n * x <= n * (10 * k));
        assert((n * uv) * w == n * (uv * w));
    }
    assert(e * k + (14 * n) * k + (10 * n) * k == (2 * (n * n) + 31 * n) * k) by (nonlinear_arith)
        requires
            e == 2 * (n * (n + 1)) + 5 * n,
    ;
    // The deviation is not next to nothing.
    let still = Single { bits: sync::STILL };
    assert(laws::is_finite(still) && 1000 * units_of(still) < w) by {
        reveal(units_of);
        identity::lemma_sizes();
        assert(still.number().index == 0x3089_705f && !still.number().negative);
        lemma2_to64();
        assert(0x3089_705fnat / 0x80_0000nat == 97 && 0x3089_705fnat % 0x80_0000nat == 0x09_705f);
        lemma_pow2_adds(27, 96);
        assert(pow2(123) == 0x800_0000 * pow2(96));
        let h = pow2(96) as int;
        lemma_pow2_pos(96);
        assert((0x80_0000 + 0x09_705f) * h == 9_007_199 * h) by (nonlinear_arith);
    }
    drift::lemma_order(dev, still);
    assert(!sync::is_still(s));
    assert(Single::zero().at_most(s[i]));
    rising::lemma_unit(s[i]);
    lemma_distance(s[i], mean);
    let diff = s[i].minus(mean);
    let u = units_of(diff);
    assert((-4000 * q) * d <= u * w <= (4000 * q) * d) by (nonlinear_arith)
        requires
            -w <= u <= w,
            w <= 1000 * d,
            w == 4 * q,
            q > 0,
    {
        assert((4000 * q) * d == w * (1000 * d));
        assert(w * (1000 * d) >= w * w);
        assert(-(w * w) <= u * w <= w * w);
    }
    drift::lemma_over(diff, dev, -4000, 4000, 4000);
    let z = units_of(diff.over(dev));
    assert(sync::standardized(s)[i] == diff.over(dev));
    let x = units_of(s[i]) - m;
    assert(close(z * d, x * w, 5010 * k)) by (nonlinear_arith)
        requires
            close(z * d, u * w, ((4000 + 1) * g) * d),
            close(u, x, 4 * g),
            0 <= d,
            4 * d <= 5 * w,
            k == g * w,
            g > 0,
            w > 0,
    {
        assert(4 * ((4001 * g) * d) <= (4001 * g) * (5 * w));
        assert(-((4 * g) * w) <= (u - x) * w <= (4 * g) * w);
    }
}

} // verus!
