//! A table clamps at the ends of its domain.
//!
//! A color outside the domain gets what the nearest color of the domain gets, on
//! each channel by itself: nothing is extrapolated. What lies below the domain
//! may come out as a negative zero of a position, so the two results may differ
//! in the sign of a zero, and in nothing else.

use crate::color::lut;
use crate::ieee::grid;
use crate::ieee::grid::Format;
use crate::ieee::laws;
use crate::ieee::number;
use crate::ieee::single::Single;
use vstd::arithmetic::power2::*;
use vstd::prelude::*;

verus! {

/// Two values are the same, but for the sign of a zero.
pub open spec fn twins(x: Single, y: Single) -> bool {
    x == y || (x.number().index == 0 && y.number().index == 0)
}

proof fn lemma_twin_products(x: Single, y: Single, v: Single, w: Single)
    requires
        twins(x, y),
        twins(v, w),
    ensures
        twins(x.times(v), y.times(w)),
{
    let f = Format::Single;
    lemma_pow2_pos(149);
    number::lemma_round_zero(f, pow2(149));
    assert(grid::units(f, 0) == 0);
    let (a, b) = (grid::units(f, x.number().index as nat), grid::units(f, v.number().index as nat));
    let (c, d) = (grid::units(f, y.number().index as nat), grid::units(f, w.number().index as nat));
    assert(a == 0 || b == 0 ==> a * b == 0) by (nonlinear_arith);
    assert(c == 0 || d == 0 ==> c * d == 0) by (nonlinear_arith);
}

proof fn lemma_twin_sums(x: Single, y: Single, v: Single, w: Single)
    requires
        twins(x, y),
        twins(v, w),
    ensures
        twins(x.plus(v), y.plus(w)),
        twins(x.minus(v), y.minus(w)),
{
    assert(grid::units(Format::Single, 0) == 0);
}

proof fn lemma_twin_mixes(a: Single, b: Single, c: Single, d: Single, f: Single, g: Single)
    requires
        twins(a, b),
        twins(c, d),
        twins(f, g),
    ensures
        twins(lut::mixed(a, c, f), lut::mixed(b, d, g)),
{
    let one = Single::one();
    lemma_twin_sums(one, one, f, g);
    lemma_twin_products(a, b, one.minus(f), one.minus(g));
    lemma_twin_products(c, d, f, g);
    lemma_twin_sums(a.times(one.minus(f)), b.times(one.minus(g)), c.times(f), d.times(g));
}

proof fn lemma_twin_places(x: Single, y: Single, edge: Single, last: nat)
    requires
        twins(x, y),
    ensures
        ({
            let p = lut::between(x.times(edge), last);
            let q = lut::between(y.times(edge), last);
            p.low == q.low && p.high == q.high && twins(p.past, q.past)
        }),
{
    lemma_twin_products(x, y, edge, edge);
    let (v, w) = (x.times(edge), y.times(edge));
    assert(grid::units(Format::Single, 0) == 0);
    lemma_pow2_pos(149);
    if v != w {
        assert(v.trunc_u64() == 0 && w.trunc_u64() == 0) by {
            assert(0int / pow2(149) as int == 0);
        }
    }
    let low = Single::from_u64(lut::entry_below(v, last) as u64);
    lemma_twin_sums(v, w, low, low);
}

/// A table gives twins for twin positions.
proof fn lemma_twin_samples(t: lut::Table, p: [Single; 3], q: [Single; 3], ch: int)
    requires
        twins(p[0], q[0]),
        twins(p[1], q[1]),
        twins(p[2], q[2]),
        0 <= ch < 3,
    ensures
        twins(t.cube_at(p, ch), t.cube_at(q, ch)),
        twins(t.curve_at(p[ch], ch), t.curve_at(q[ch], ch)),
{
    let last = (t.size - 1) as nat;
    let edge = Single::from_u64(last as u64);
    lemma_twin_places(p[0], q[0], edge, last);
    lemma_twin_places(p[1], q[1], edge, last);
    lemma_twin_places(p[2], q[2], edge, last);
    let (x, u) = (lut::between(p[0].times(edge), last), lut::between(q[0].times(edge), last));
    let (y, v) = (lut::between(p[1].times(edge), last), lut::between(q[1].times(edge), last));
    let (z, w) = (lut::between(p[2].times(edge), last), lut::between(q[2].times(edge), last));
    let e000 = t.entry(x.low, y.low, z.low)[ch];
    let e100 = t.entry(x.high, y.low, z.low)[ch];
    let e010 = t.entry(x.low, y.high, z.low)[ch];
    let e110 = t.entry(x.high, y.high, z.low)[ch];
    let e001 = t.entry(x.low, y.low, z.high)[ch];
    let e101 = t.entry(x.high, y.low, z.high)[ch];
    let e011 = t.entry(x.low, y.high, z.high)[ch];
    let e111 = t.entry(x.high, y.high, z.high)[ch];
    lemma_twin_mixes(e000, e000, e100, e100, x.past, u.past);
    lemma_twin_mixes(e010, e010, e110, e110, x.past, u.past);
    lemma_twin_mixes(e001, e001, e101, e101, x.past, u.past);
    lemma_twin_mixes(e011, e011, e111, e111, x.past, u.past);
    let (a, b) = (lut::mixed(e000, e100, x.past), lut::mixed(e000, e100, u.past));
    let (c, d) = (lut::mixed(e010, e110, x.past), lut::mixed(e010, e110, u.past));
    let (g, h) = (lut::mixed(e001, e101, x.past), lut::mixed(e001, e101, u.past));
    let (i, j) = (lut::mixed(e011, e111, x.past), lut::mixed(e011, e111, u.past));
    lemma_twin_mixes(a, b, c, d, y.past, v.past);
    lemma_twin_mixes(g, h, i, j, y.past, v.past);
    lemma_twin_mixes(
        lut::mixed(a, c, y.past),
        lut::mixed(b, d, v.past),
        lut::mixed(g, i, y.past),
        lut::mixed(h, j, v.past),
        z.past,
        w.past,
    );
    let ends = Single::from_u64(t.size as u64).minus(Single::one());
    lemma_twin_places(p[ch], q[ch], ends, last);
    let (k, l) = (lut::between(p[ch].times(ends), last), lut::between(q[ch].times(ends), last));
    let (m, n) = (t.data[k.low as int][ch], t.data[k.high as int][ch]);
    lemma_twin_mixes(m, m, n, n, k.past, l.past);
}

/// The domain of a channel can be told apart: its ends are finite and in order,
/// and so is its span, which is more than next to nothing.
pub open spec fn is_spread(min: Single, max: Single) -> bool {
    &&& min.less(max)
    &&& laws::is_finite(min)
    &&& laws::is_finite(max)
    &&& laws::is_finite(max.minus(min))
    &&& !max.minus(min).magnitude().less(Single { bits: lut::EPSILON })
}

/// An infinite value lies beyond the end of any domain.
proof fn lemma_infinite_placed(v: Single, min: Single, max: Single)
    requires
        is_spread(min, max),
        !v.nan(),
        !laws::is_finite(v),
    ensures
        v.number().negative ==> lut::placed(v, min, max) == Single::zero(),
        !v.number().negative ==> lut::placed(v, min, max) == Single::one(),
{
    let span = max.minus(min);
    laws::law_minus_keeps_order(min, max, min);
    laws::law_minus_itself(min);
    assert(Single::zero().less(span));
}

/// A channel lies in its domain where its clamped value does.
proof fn lemma_clamped_channel(v: Single, min: Single, max: Single)
    requires
        is_spread(min, max),
        !v.nan(),
    ensures
        twins(lut::placed(v, min, max), lut::placed(v.clamped(min, max), min, max)),
{
    if v.less(min) {
        if laws::is_finite(v) {
            lut::laws::law_below_the_domain_clamps(v, min, max);
        } else {
            lemma_infinite_placed(v, min, max);
        }
        lut::laws::law_below_the_domain_clamps(min, min, max);
    } else if max.less(v) {
        if laws::is_finite(v) {
            lut::laws::law_above_the_domain_clamps(v, min, max);
        } else {
            lemma_infinite_placed(v, min, max);
        }
        lut::laws::law_above_the_domain_clamps(max, min, max);
    }
}

/// A color held in the domain, channel by channel.
pub open spec fn held(t: lut::Table, rgb: [Single; 3]) -> [Single; 3] {
    [
        rgb[0].clamped(t.domain_min[0], t.domain_max[0]),
        rgb[1].clamped(t.domain_min[1], t.domain_max[1]),
        rgb[2].clamped(t.domain_min[2], t.domain_max[2]),
    ]
}

/// The domain of a table can be told apart on every channel.
pub open spec fn has_spread(t: lut::Table) -> bool {
    &&& is_spread(t.domain_min[0], t.domain_max[0])
    &&& is_spread(t.domain_min[1], t.domain_max[1])
    &&& is_spread(t.domain_min[2], t.domain_max[2])
}

/// A table gives for a color what it gives for the color held in its domain,
/// channel by channel, but for the sign of a zero.
pub proof fn law_sampling_clamps(t: lut::Table, rgb: [Single; 3], ch: int)
    requires
        has_spread(t),
        !rgb[0].nan(),
        !rgb[1].nan(),
        !rgb[2].nan(),
        0 <= ch < 3,
    ensures
        twins(t.sampled(rgb)[ch], t.sampled(held(t, rgb))[ch]),
{
    let inside = held(t, rgb);
    lemma_clamped_channel(rgb[0], t.domain_min[0], t.domain_max[0]);
    lemma_clamped_channel(rgb[1], t.domain_min[1], t.domain_max[1]);
    lemma_clamped_channel(rgb[2], t.domain_min[2], t.domain_max[2]);
    lemma_twin_samples(t, t.normalized(rgb), t.normalized(inside), ch);
}

/// The last of `size` entries, as a number, both ways it is reckoned.
pub(crate) proof fn lemma_last_entry(size: nat)
    requires
        1 <= size < 0x100_0000,
    ensures
        Single::from_u64(size as u64).minus(Single::one()) == Single::from_u64((size - 1) as u64),
{
    let f = Format::Single;
    laws::law_small_integers_are_exact(size as u64);
    laws::law_small_integers_are_exact((size - 1) as u64);
    laws::law_small_integers_are_exact(1);
    let k = Single::from_u64((size - 1) as u64).number().index as nat;
    laws::law_rounding_keeps_values(f, k, 1);
    assert(grid::units(f, k) * 1 == grid::units(f, k));
    lut::identity::lemma_sizes();
    assert(size * pow2(149) - pow2(149) == (size - 1) * pow2(149)) by (nonlinear_arith);
    if size == 1 {
        assert(0 * pow2(149) == 0);
        if k > 0 {
            grid::lemma_units_increase(f, 0, k);
        }
    }
}

/// The lower end of a domain is the position 0, and the upper end 1.
proof fn lemma_ends(min: Single, max: Single)
    requires
        is_spread(min, max),
    ensures
        lut::placed(min, min, max) == Single::zero(),
        lut::placed(max, min, max) == Single::one(),
{
    let span = max.minus(min);
    laws::law_minus_keeps_order(min, max, min);
    laws::law_minus_itself(min);
    assert(Single::zero().less(span));
    laws::law_zero_over(Single::zero(), span);
    let f = Format::Single;
    grid::lemma_units_increase(f, 0, span.number().index as nat);
    number::lemma_round_zero(f, grid::units(f, span.number().index as nat));
    assert(grid::units(f, 0) * pow2(149) == 0);
    let q = Single::zero().over(span);
    assert(q.number() == (number::Number { negative: false, index: 0 }));
    lut::laws::law_above_the_domain_clamps(max, min, max);
}

/// The position 0 is that of the first entry, and 1 that of the last.
proof fn lemma_end_positions(last: nat)
    requires
        last < 0x100_0000,
    ensures
        Single::zero().times(Single::from_u64(last as u64)) == Single::from_u64(0),
        Single::one().times(Single::from_u64(last as u64)) == Single::from_u64(last as u64),
{
    let edge = Single::from_u64(last as u64);
    laws::law_small_integers_are_exact(last as u64);
    laws::law_times_one(edge);
    laws::law_times_zero(edge, Single::zero());
    number::lemma_round_zero(Format::Single, 1);
    assert(0 * pow2(149) == 0);
    let f = Format::Single;
    let u = grid::units(f, edge.number().index as nat);
    assert(grid::units(f, 0) * u == 0) by (nonlinear_arith)
        requires
            grid::units(f, 0) == 0,
    ;
    lemma_pow2_pos(149);
    number::lemma_round_zero(f, pow2(149));
    let p = Single::zero().times(edge);
    assert(p.number() == (number::Number { negative: false, index: 0 }));
    assert(Single::from_u64(0).number() == p.number());
}

/// The lower end of the domain gets the first entry of a table, and the upper
/// end the last.
pub proof fn law_ends_get_the_end_entries(t: lut::Table, ch: int)
    requires
        t.complete(),
        t.size < 0x100_0000,
        lut::laws::all_finite(t),
        has_spread(t),
        0 <= ch < 3,
    ensures
        t.sampled(t.domain_min)[ch].equals(t.data[0][ch]),
        t.sampled(t.domain_max)[ch].equals(
            t.data[if t.cube {
                t.size * t.size * t.size - 1
            } else {
                t.size - 1
            }][ch],
        ),
{
    let last = (t.size - 1) as nat;
    lemma_ends(t.domain_min[0], t.domain_max[0]);
    lemma_ends(t.domain_min[1], t.domain_max[1]);
    lemma_ends(t.domain_min[2], t.domain_max[2]);
    lemma_end_positions(last);
    lemma_last_entry(t.size);
    let low = t.normalized(t.domain_min);
    let high = t.normalized(t.domain_max);
    if t.cube {
        lut::laws::law_cube_passes_its_entries(t, low, 0, 0, 0, ch);
        lut::laws::law_cube_passes_its_entries(t, high, last, last, last, ch);
        let n = t.size;
        assert(0 * n == 0 && 0 * (n * n) == 0);
        assert(last + last * n + last * (n * n) == n * n * n - 1) by (nonlinear_arith)
            requires
                last == n - 1,
        ;
    } else {
        lut::laws::law_curve_passes_its_entries(t, low[ch], 0, ch);
        lut::laws::law_curve_passes_its_entries(t, high[ch], last, ch);
    }
}

} // verus!
