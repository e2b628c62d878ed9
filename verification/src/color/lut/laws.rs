//! What holds of conversion tables as a whole.

use crate::color::lut;
use crate::color::lut::gpu;
use crate::color::lut::gpu::LutLayout;
use crate::color::lut::parser;
use crate::ieee::grid;
use crate::ieee::grid::Format;
use crate::ieee::laws;
use crate::ieee::single::Single;
use vstd::arithmetic::div_mod::*;
use vstd::arithmetic::power2::*;
use vstd::prelude::*;

verus! {

/// A channel above the domain is held at its upper end instead of being
/// extrapolated, and so is one at the end.
pub proof fn law_above_the_domain_clamps(v: Single, min: Single, max: Single)
    requires
        min.less(max),
        max.at_most(v),
        laws::is_finite(min),
        laws::is_finite(v),
        laws::is_finite(max.minus(min)),
        !max.minus(min).magnitude().less(Single { bits: lut::EPSILON }),
    ensures
        lut::placed(v, min, max) == Single::one(),
{
    let span = max.minus(min);
    let over = v.minus(min);
    laws::law_minus_keeps_order(min, max, min);
    laws::law_minus_itself(min);
    laws::law_minus_keeps_order(max, v, min);
    assert(Single::zero().less(span));
    laws::law_over_itself(span);
    laws::law_over_keeps_order(span, over, span);
}

/// A channel below the domain is held at its lower end.
pub proof fn law_below_the_domain_clamps(v: Single, min: Single, max: Single)
    requires
        min.less(max),
        v.at_most(min),
        laws::is_finite(v),
        laws::is_finite(min),
        laws::is_finite(max),
        laws::is_finite(max.minus(min)),
    ensures
        lut::placed(v, min, max).equals(Single::zero()),
{
    let span = max.minus(min);
    let over = v.minus(min);
    laws::law_minus_keeps_order(min, max, min);
    laws::law_minus_itself(min);
    laws::law_minus_keeps_order(v, min, min);
    assert(over.at_most(Single::zero()));
    if !span.magnitude().less(Single { bits: lut::EPSILON }) {
        assert(Single::zero().less(span));
        lemma_not_above_zero(over, span);
    }
}

/// What is not above zero stays there when it is divided by what is.
proof fn lemma_not_above_zero(x: Single, d: Single)
    requires
        x.at_most(Single::zero()),
        Single::zero().less(d),
        laws::is_finite(d),
    ensures
        x.over(d).at_most(Single::zero()),
{
    let f = Format::Single;
    if x.number().index == 0 {
        laws::law_zero_over(x, d);
    } else if laws::is_finite(x) {
        let n = grid::units(f, x.number().index as nat) * pow2(149);
        let u = grid::units(f, d.number().index as nat);
        grid::lemma_units_increase(f, 0, d.number().index as nat);
        laws::law_nearest_exists(f, n, u);
    }
}

/// Nothing of the second value is mixed in at the first.
proof fn lemma_mix_none(a: Single, b: Single)
    requires
        laws::is_finite(a),
        laws::is_finite(b),
    ensures
        lut::mixed(a, b, Single::zero()).equals(a),
        laws::is_finite(lut::mixed(a, b, Single::zero())),
{
    let zero = Single::zero();
    let one = Single::one();
    laws::law_plus_zero(one, Single { bits: 0x8000_0000 });
    assert(one.minus(zero) == one.plus(Single { bits: 0x8000_0000 }));
    laws::law_times_one(a);
    laws::law_times_zero(b, zero);
    laws::law_plus_zero(a, b.times(zero));
}

/// A position that is exactly an entry lies nowhere past it.
proof fn lemma_on_entry(i: nat, last: nat)
    requires
        i <= last < 0x100_0000,
    ensures
        lut::between(Single::from_u64(i as u64), last).low == i,
        lut::between(Single::from_u64(i as u64), last).high <= last,
        lut::between(Single::from_u64(i as u64), last).past == Single::zero(),
{
    laws::law_small_integers_are_exact(i as u64);
    laws::law_minus_itself(Single::from_u64(i as u64));
}

/// The entries of a table are finite.
pub open spec fn all_finite(t: lut::Table) -> bool {
    forall|i: int, ch: int|
        0 <= i < t.data.len() && 0 <= ch < 3 ==> laws::is_finite(#[trigger] t.data[i][ch])
}

/// A curve gives the entry itself at the position of an entry.
pub proof fn law_curve_passes_its_entries(t: lut::Table, p: Single, i: nat, ch: int)
    requires
        t.complete(),
        !t.cube,
        t.size < 0x100_0000,
        all_finite(t),
        i < t.size,
        0 <= ch < 3,
        p.times(Single::from_u64(t.size as u64).minus(Single::one())) == Single::from_u64(i as u64),
    ensures
        t.curve_at(p, ch).equals(t.data[i as int][ch]),
{
    let last = (t.size - 1) as nat;
    lemma_on_entry(i, last);
    let x = lut::between(Single::from_u64(i as u64), last);
    lemma_mix_none(t.data[i as int][ch], t.data[x.high as int][ch]);
}

/// A cube gives the entry itself at the position of an entry.
pub proof fn law_cube_passes_its_entries(
    t: lut::Table,
    p: [Single; 3],
    r: nat,
    g: nat,
    b: nat,
    ch: int,
)
    requires
        t.complete(),
        t.cube,
        t.size < 0x100_0000,
        all_finite(t),
        r < t.size,
        g < t.size,
        b < t.size,
        0 <= ch < 3,
        p[0].times(Single::from_u64((t.size - 1) as u64)) == Single::from_u64(r as u64),
        p[1].times(Single::from_u64((t.size - 1) as u64)) == Single::from_u64(g as u64),
        p[2].times(Single::from_u64((t.size - 1) as u64)) == Single::from_u64(b as u64),
    ensures
        t.cube_at(p, ch).equals(t.entry(r, g, b)[ch]),
{
    let last = (t.size - 1) as nat;
    lemma_on_entry(r, last);
    lemma_on_entry(g, last);
    lemma_on_entry(b, last);
    let x = lut::between(Single::from_u64(r as u64), last);
    let y = lut::between(Single::from_u64(g as u64), last);
    let z = lut::between(Single::from_u64(b as u64), last);
    let zero = Single::zero();
    assert forall|i: nat, j: nat, k: nat| i <= last && j <= last && k <= last implies laws::is_finite(
        #[trigger] t.entry(i, j, k)[ch],
    ) by {
        lut::lemma_entry_in_range(t.size, i, j, k);
    }
    let c00 = lut::mixed(t.entry(r, g, b)[ch], t.entry(x.high, g, b)[ch], zero);
    let c10 = lut::mixed(t.entry(r, y.high, b)[ch], t.entry(x.high, y.high, b)[ch], zero);
    let c01 = lut::mixed(t.entry(r, g, z.high)[ch], t.entry(x.high, g, z.high)[ch], zero);
    let c11 = lut::mixed(t.entry(r, y.high, z.high)[ch], t.entry(x.high, y.high, z.high)[ch], zero);
    lemma_mix_none(t.entry(r, g, b)[ch], t.entry(x.high, g, b)[ch]);
    lemma_mix_none(t.entry(r, y.high, b)[ch], t.entry(x.high, y.high, b)[ch]);
    lemma_mix_none(t.entry(r, g, z.high)[ch], t.entry(x.high, g, z.high)[ch]);
    lemma_mix_none(t.entry(r, y.high, z.high)[ch], t.entry(x.high, y.high, z.high)[ch]);
    lemma_mix_none(c00, c10);
    lemma_mix_none(c01, c11);
    lemma_mix_none(lut::mixed(c00, c10, zero), lut::mixed(c01, c11, zero));
}

/// A color beyond the upper end of the domain on every channel gets what the end
/// itself gets: nothing is extrapolated.
pub proof fn law_sampling_clamps_above(t: lut::Table, rgb: [Single; 3])
    requires
        forall|i: int|
            0 <= i < 3 ==> {
                let (min, max) = (t.domain_min[i], t.domain_max[i]);
                &&& min.less(max) && max.at_most(#[trigger] rgb[i])
                &&& laws::is_finite(min) && laws::is_finite(rgb[i]) && laws::is_finite(max.minus(min))
                &&& !max.minus(min).magnitude().less(Single { bits: lut::EPSILON })
            },
    ensures
        t.sampled(rgb) == t.sampled(t.domain_max),
{
    assert forall|i: int| 0 <= i < 3 implies (#[trigger] t.normalized(rgb)[i])
        == t.normalized(t.domain_max)[i] by {
        let (min, max) = (t.domain_min[i], t.domain_max[i]);
        assert(max.at_most(rgb[i]));
        law_above_the_domain_clamps(rgb[i], min, max);
        law_above_the_domain_clamps(max, min, max);
    }
    assert(t.normalized(rgb) =~= t.normalized(t.domain_max));
}

/// Cells and places are each other's inverse: each layout holds each cell of the
/// cube exactly once.
pub proof fn law_every_cell_has_its_place(layout: LutLayout, n: nat, r: nat, g: nat, b: nat)
    requires
        r < n,
        g < n,
        b < n,
    ensures
        gpu::place(layout, n, r, g, b) < n * n * n,
        gpu::cell(layout, n, gpu::place(layout, n, r, g, b)) == (r, g, b),
{
    match layout {
        LutLayout::Volume3D => {
            lemma_decode(n, r, g, b);
        },
        LutLayout::Tiled2D => {
            lemma_decode(n, r, b, g);
            assert(gpu::place(layout, n, r, g, b) == r + b * n + g * (n * n));
        },
    }
}

proof fn lemma_decode(n: nat, x: nat, y: nat, z: nat)
    requires
        x < n,
        y < n,
        z < n,
    ensures
        ({
            let p = x + y * n + z * (n * n);
            &&& p < n * n * n
            &&& p % n == x
            &&& (p / n) % n == y
            &&& p / n / n == z
        }),
{
    let p = x + y * n + z * (n * n);
    let q = y + z * n;
    lut::lemma_entry_in_range(n, x, y, z);
    assert(p == q * n + x) by (nonlinear_arith)
        requires
            p == x + y * n + z * (n * n),
            q == y + z * n,
    ;
    lemma_fundamental_div_mod_converse(p as int, n as int, q as int, x as int);
    assert(q == z * n + y);
    lemma_fundamental_div_mod_converse(q as int, n as int, z as int, y as int);
}

/// Where a layout keeps a cell, it holds the color of the cell, with alpha 1.
pub proof fn law_texel_holds_its_color(
    layout: LutLayout,
    n: nat,
    color: spec_fn(nat, nat, nat) -> [Single; 3],
    r: nat,
    g: nat,
    b: nat,
    ch: int,
)
    requires
        r < n,
        g < n,
        b < n,
        0 <= ch < 3,
    ensures
        ({
            let t = gpu::texels(layout, n, color);
            let p = 4 * gpu::place(layout, n, r, g, b) as int;
            &&& p + 3 < t.len()
            &&& t[p + ch] == color(r, g, b)[ch]
            &&& t[p + 3] == Single::one()
        }),
{
    law_every_cell_has_its_place(layout, n, r, g, b);
    let p = gpu::place(layout, n, r, g, b);
    assert((4 * p + ch) / 4 == p && (4 * p + ch) % 4 == ch);
    assert((4 * p + 3) / 4 == p && (4 * p + 3) % 4 == 3);
}

/// The order of a `.cube` file is the row-major order of a 3D texture: the
/// padded entries are the texels of the volume.
pub proof fn law_cube_order_is_volume_order(t: lut::Table)
    requires
        t.size > 0,
        t.data.len() == t.size * t.size * t.size,
    ensures
        lut::padded(t.data) == gpu::texels(LutLayout::Volume3D, t.size, gpu::entries(t)),
{
    let n = t.size;
    let a = lut::padded(t.data);
    let b = gpu::texels(LutLayout::Volume3D, n, gpu::entries(t));
    assert forall|j: int| 0 <= j < a.len() implies a[j] == b[j] by {
        let p = j / 4;
        lemma_fundamental_div_mod(p, n as int);
        lemma_fundamental_div_mod(p / n as int, n as int);
        let x = p % n as int;
        let q = p / n as int;
        let y = q % n as int;
        let z = q / n as int;
        assert(p == x + y * n + z * (n * n)) by (nonlinear_arith)
            requires
                p == n * q + x,
                q == n * z + y,
        ;
    }
    assert(a =~= b);
}

/// Both layouts of a cube hold the same texels: what the volume has at the place
/// of a cell, the tiled image has at its own place of that cell.
pub proof fn law_layouts_hold_the_same_texels(t: lut::Table, r: nat, g: nat, b: nat, ch: int)
    requires
        t.data.len() == t.size * t.size * t.size,
        r < t.size,
        g < t.size,
        b < t.size,
        0 <= ch < 4,
    ensures
        ({
            let volume = lut::padded(t.data);
            let tiled = gpu::texels(LutLayout::Tiled2D, t.size, gpu::entries(t));
            &&& volume.len() == tiled.len()
            &&& volume[4 * gpu::place(LutLayout::Volume3D, t.size, r, g, b) + ch]
                == tiled[4 * gpu::place(LutLayout::Tiled2D, t.size, r, g, b) + ch]
        }),
{
    let color = gpu::entries(t);
    let c = if ch < 3 {
        ch
    } else {
        0
    };
    law_cube_order_is_volume_order(t);
    law_texel_holds_its_color(LutLayout::Volume3D, t.size, color, r, g, b, c);
    law_texel_holds_its_color(LutLayout::Tiled2D, t.size, color, r, g, b, c);
}

/// A line that says nothing - blank, a comment, an unused keyword - changes
/// nothing of what a file describes, wherever it stands.
pub proof fn law_silent_lines_do_not_count(before: Seq<Seq<char>>, raw: Seq<char>, after: Seq<Seq<char>>)
    requires
        parser::says(raw) is Silent,
    ensures
        parser::table_in(before.push(raw) + after) == parser::table_in(before + after),
        parser::all_sound(before.push(raw) + after) == parser::all_sound(before + after),
        parser::curve_in(before.push(raw) + after) == parser::curve_in(before + after),
        parser::cube_in(before.push(raw) + after) == parser::cube_in(before + after),
{
    lemma_silent(before, raw, after);
    let with = before.push(raw) + after;
    let without = before + after;
    if parser::all_sound(with) {
        assert forall|i: int| 0 <= i < without.len() implies (#[trigger] parser::fault_at(
            without,
            i,
        )) is None by {
            if i < before.len() {
                assert(with[i] == without[i]);
                assert(parser::fault_at(with, i) is None);
            } else {
                assert(with[i + 1] == without[i]);
                assert(parser::fault_at(with, i + 1) is None);
            }
        }
    }
    if parser::all_sound(without) {
        assert forall|i: int| 0 <= i < with.len() implies (#[trigger] parser::fault_at(
            with,
            i,
        )) is None by {
            if i < before.len() {
                assert(with[i] == without[i]);
                assert(parser::fault_at(without, i) is None);
            } else if i == before.len() {
                assert(with[i] == raw);
            } else {
                assert(with[i] == without[i - 1]);
                assert(parser::fault_at(without, i - 1) is None);
            }
        }
    }
}

proof fn lemma_silent(before: Seq<Seq<char>>, raw: Seq<char>, after: Seq<Seq<char>>)
    requires
        parser::says(raw) is Silent,
    ensures
        parser::title_in(before.push(raw) + after) == parser::title_in(before + after),
        parser::curve_in(before.push(raw) + after) == parser::curve_in(before + after),
        parser::cube_in(before.push(raw) + after) == parser::cube_in(before + after),
        parser::domain_min_in(before.push(raw) + after) == parser::domain_min_in(before + after),
        parser::domain_max_in(before.push(raw) + after) == parser::domain_max_in(before + after),
        parser::rows_in(before.push(raw) + after) == parser::rows_in(before + after),
    decreases after.len(),
{
    let with = before.push(raw) + after;
    let without = before + after;
    if after.len() == 0 {
        assert(with =~= before.push(raw));
        assert(without =~= before);
        assert(with.drop_last() =~= before);
    } else {
        assert(with.drop_last() =~= before.push(raw) + after.drop_last());
        assert(without.drop_last() =~= before + after.drop_last());
        assert(with.last() == without.last());
        lemma_silent(before, raw, after.drop_last());
    }
}

} // verus!
