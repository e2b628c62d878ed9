//! Resampling a cube to the size of the texture keeps the transform.
//!
//! The levels of the texture's cells are held exactly. So sampling the resampled
//! table at a cell gives what the source gives there; and where the edge is one
//! more than a divisor of 64 (17, 33 and 65 among them), every entry of the source
//! falls on a cell and is kept. What lies between the cells is the matter of
//! `refinement.rs`.

use crate::color::lut;
use crate::color::lut::gpu;
use crate::color::lut::identity;
use crate::ieee::grid;
use crate::ieee::grid::Format;
use crate::ieee::laws;
use crate::ieee::number;
use crate::ieee::single::Single;
use vstd::arithmetic::power2::*;
use vstd::prelude::*;

verus! {

/// A level of the texture is held exactly.
pub(crate) proof fn lemma_level(c: nat)
    requires
        c <= 64,
    ensures
        ({
            let l = gpu::level(c, 65);
            &&& identity::plain(l)
            &&& !l.number().negative
            &&& identity::amount(l) == c * pow2(143)
            &&& l.at_most(Single::one())
            &&& c == 0 <==> l.number().index == 0
        }),
{
    let f = Format::Single;
    let p = pow2(149);
    laws::law_small_integers_are_exact(c as u64);
    laws::law_small_integers_are_exact(64);
    let k = laws::lemma_magnitude(c, 143);
    let d = 64 * p;
    lemma_pow2_pos(149);
    lemma2_to64();
    lemma_pow2_adds(6, 143);
    let n = (c * p) * p;
    assert(n == (c * pow2(143)) * d) by (nonlinear_arith)
        requires
            n == (c * p) * p,
            d == 64 * p,
            p == 64 * pow2(143),
    ;
    laws::law_rounding_keeps_values(f, k, d);
    let l = gpu::level(c, 65);
    assert(l.number() == (number::Number { negative: false, index: k as u64 }));
    identity::lemma_sizes();
    assert(c * pow2(143) <= p) by (nonlinear_arith)
        requires
            c <= 64,
            p == 64 * pow2(143),
    ;
    if k > 0x3f80_0000 {
        grid::lemma_units_increase(f, 0x3f80_0000, k);
    }
}

/// A level mapped back through the domain from 0 to 1 is itself.
pub(crate) proof fn lemma_in_unit_domain(l: Single)
    requires
        identity::plain(l),
        !l.number().negative,
        l.at_most(Single::one()),
    ensures
        gpu::in_domain(l, Single::zero(), Single::one()) == l,
{
    let one = Single::one();
    let zero = Single::zero();
    laws::law_plus_zero(one, Single { bits: 0x8000_0000 });
    assert(one.minus(zero) == one.plus(Single { bits: 0x8000_0000 }));
    laws::law_times_one(l);
    laws::law_plus_zero(l, zero);
    if l.number().index == 0 {
        assert(l == zero);
    }
}

/// A value of the domain from 0 to 1 is the position of the `i`-th of `size`
/// entries.
#[verifier::opaque]
spec fn is_on(x: Single, size: nat, i: nat) -> bool {
    lut::placed(x, Single::zero(), Single::one()).times(Single::from_u64((size - 1) as u64))
        == Single::from_u64(i as u64)
}

/// The value that the `c`-th cell of an axis stands for.
#[verifier::opaque]
pub open spec fn cell_value(c: nat) -> Single {
    gpu::in_domain(gpu::level(c, 65), Single::zero(), Single::one())
}

/// The position of an entry of the source, among its own entries.
proof fn lemma_position(size: nat, m: nat, i: nat) -> (x: Single)
    requires
        size >= 2,
        (size - 1) * m == 64,
        i < size,
    ensures
        size <= 65,
        x == cell_value(i * m),
        is_on(x, size, i),
{
    reveal(is_on);
    reveal(cell_value);
    let f = Format::Single;
    let p = pow2(149);
    let e = (size - 1) as nat;
    assert(i * m <= 64 && e <= 64) by (nonlinear_arith)
        requires
            e * m == 64,
            i <= e,
            e >= 1,
    ;
    lemma_level(i * m);
    let l = gpu::level(i * m, 65);
    lemma_in_unit_domain(l);
    identity::lemma_placed(l);
    let at = lut::placed(l, Single::zero(), Single::one());
    laws::law_small_integers_are_exact(e as u64);
    laws::law_small_integers_are_exact(i as u64);
    let k = Single::from_u64(i as u64).number().index as nat;
    lemma_pow2_pos(149);
    lemma2_to64();
    lemma_pow2_adds(6, 143);
    let n = ((i * m) * pow2(143)) * (e * p);
    assert(n == (i * p) * p) by (nonlinear_arith)
        requires
            n == ((i * m) * pow2(143)) * (e * p),
            e * m == 64,
            p == 64 * pow2(143),
    ;
    laws::law_rounding_keeps_values(f, k, p);
    let r = at.times(Single::from_u64(e as u64));
    assert(r.number() == Single::from_u64(i as u64).number());
    l
}

/// What is resampled is the source at the values of the cell.
proof fn lemma_resampled(t: lut::Table, r: nat, g: nat, b: nat, rgb: [Single; 3])
    requires
        is_plain_cube(t),
        rgb[0] == cell_value(r),
        rgb[1] == cell_value(g),
        rgb[2] == cell_value(b),
    ensures
        gpu::resampled(t, 65)(r, g, b) == t.sampled(rgb),
{
    reveal(cell_value);
    let cell = [
        gpu::in_domain(gpu::level(r, 65), t.domain_min[0], t.domain_max[0]),
        gpu::in_domain(gpu::level(g, 65), t.domain_min[1], t.domain_max[1]),
        gpu::in_domain(gpu::level(b, 65), t.domain_min[2], t.domain_max[2]),
    ];
    assert(cell =~= rgb);
    assert(gpu::resampled(t, 65)(r, g, b) == t.sampled(cell));
}

/// A color on an entry gets the entry.
proof fn lemma_hit(t: lut::Table, rgb: [Single; 3], r: nat, g: nat, b: nat, ch: int)
    requires
        is_plain_cube(t),
        t.size <= 65,
        r < t.size,
        g < t.size,
        b < t.size,
        0 <= ch < 3,
        is_on(rgb[0], t.size, r),
        is_on(rgb[1], t.size, g),
        is_on(rgb[2], t.size, b),
    ensures
        t.sampled(rgb)[ch].equals(t.entry(r, g, b)[ch]),
{
    reveal(is_on);
    let p = t.normalized(rgb);
    lut::laws::law_cube_passes_its_entries(t, p, r, g, b, ch);
    assert(t.sampled(rgb)[ch] == t.cube_at(p, ch));
}

/// A complete cube of finite entries on the domain from 0 to 1.
pub open spec fn is_plain_cube(t: lut::Table) -> bool {
    &&& t.complete()
    &&& t.cube
    &&& t.domain_min == [Single::zero(), Single::zero(), Single::zero()]
    &&& t.domain_max == [Single::one(), Single::one(), Single::one()]
    &&& lut::laws::all_finite(t)
}

/// Resampling a cube to the size of the texture keeps every entry of it, where
/// its edge is one more than a divisor of 64 and its domain runs from 0 to 1.
pub proof fn law_resampling_keeps_entries(
    t: lut::Table,
    m: nat,
    r: nat,
    g: nat,
    b: nat,
    ch: int,
)
    requires
        is_plain_cube(t),
        t.size >= 2,
        (t.size - 1) * m == 64,
        r < t.size,
        g < t.size,
        b < t.size,
        0 <= ch < 3,
    ensures
        gpu::resampled(t, gpu::MAX_LUT_SIZE as nat)(r * m, g * m, b * m)[ch].equals(
            t.entry(r, g, b)[ch],
        ),
{
    let x = lemma_position(t.size, m, r);
    let y = lemma_position(t.size, m, g);
    let z = lemma_position(t.size, m, b);
    let rgb = [x, y, z];
    lemma_resampled(t, r * m, g * m, b * m, rgb);
    lemma_hit(t, rgb, r, g, b, ch);
}

/// The table that a cube is resampled to.
pub open spec fn resampled_table(t: lut::Table) -> lut::Table {
    lut::Table {
        size: 65,
        data: Seq::new(
            65 * 65 * 65,
            |p: int|
                {
                    let (r, g, b) = gpu::cell(gpu::LutLayout::Volume3D, 65, p as nat);
                    gpu::resampled(t, 65)(r, g, b)
                },
        ),
        ..t
    }
}

/// The resampled table holds at each cell what was sampled for it.
pub(crate) proof fn lemma_resampled_entry(t: lut::Table, r: nat, g: nat, b: nat)
    requires
        r < 65,
        g < 65,
        b < 65,
    ensures
        resampled_table(t).entry(r, g, b) == gpu::resampled(t, 65)(r, g, b),
{
    lut::laws::law_every_cell_has_its_place(gpu::LutLayout::Volume3D, 65, r, g, b);
}

/// The values of a cell are positions of the resampled table.
proof fn lemma_on_cell(c: nat)
    requires
        c < 65,
    ensures
        is_on(cell_value(c), 65, c),
{
    let x = lemma_position(65, 1, c);
    assert(c * 1 == c);
}

proof fn lemma_resampled_is_plain(t: lut::Table)
    requires
        is_plain_cube(t),
        lut::laws::all_finite(resampled_table(t)),
    ensures
        is_plain_cube(resampled_table(t)),
        resampled_table(t).size == 65,
{
}

/// Sampling the resampled table at a color of any of its cells gives what the
/// source gives for that color.
pub proof fn law_resampled_table_agrees_on_its_cells(
    t: lut::Table,
    rgb: [Single; 3],
    r: nat,
    g: nat,
    b: nat,
    ch: int,
)
    requires
        is_plain_cube(t),
        lut::laws::all_finite(resampled_table(t)),
        r < 65,
        g < 65,
        b < 65,
        0 <= ch < 3,
        rgb[0] == cell_value(r),
        rgb[1] == cell_value(g),
        rgb[2] == cell_value(b),
    ensures
        resampled_table(t).sampled(rgb)[ch].equals(t.sampled(rgb)[ch]),
{
    lemma_on_cell(r);
    lemma_on_cell(g);
    lemma_on_cell(b);
    lemma_resampled(t, r, g, b, rgb);
    lemma_resampled_entry(t, r, g, b);
    lemma_resampled_is_plain(t);
    lemma_hit(resampled_table(t), rgb, r, g, b, ch);
}

} // verus!
