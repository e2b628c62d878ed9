//! Upsampling a cube to the size of the texture is lossless.
//!
//! Where the edge of a cube is one more than a divisor of 64, the cells of the
//! texture lie within the cells of the cube, and exact interpolation over the
//! finer cells is exact interpolation over the coarser ones. What is left is
//! rounding, and how exactly the domain lets the colors of the cells be found
//! again.

use crate::color::lut;
use crate::color::lut::gpu;
use crate::color::lut::identity::{amount, close, plain, slip, unity};
use crate::color::lut::interpolation::{
    all_within, exact, line, plane, row, stands_for, trilinear, within,
};
use crate::ieee::single::Single;
use vstd::arithmetic::div_mod::*;
use vstd::arithmetic::power2::*;
use vstd::prelude::*;

verus! {

/// The values of a curve at the steps `w` apart.
pub open spec fn steps(a: spec_fn(int) -> int, w: int) -> spec_fn(int) -> int {
    |c: int| exact(a, c * w)
}

/// Interpolating over steps that divide the distance of the values is
/// interpolating over the values.
proof fn lemma_refine(a: spec_fn(int) -> int, m: int, w: int, y: int)
    requires
        m >= 1,
        w >= 1,
        m * w == unity(),
        y >= 0,
    ensures
        exact(steps(a, w), y * m) == exact(a, y) * unity(),
{
    let one = unity();
    let c = (y * m) / one;
    let f = (y * m) % one;
    lut::identity::lemma_sizes();
    assert(y * m >= 0) by (nonlinear_arith)
        requires
            y >= 0,
            m >= 1,
    ;
    lemma_fundamental_div_mod(y * m, one);
    lemma_mod_bound(y * m, one);
    lemma_div_pos_is_pos(y * m, one);
    let i = c / m;
    let r = c % m;
    lemma_fundamental_div_mod(c, m);
    lemma_mod_bound(c, m);
    let g = y - c * w;
    assert(f == m * g) by (nonlinear_arith)
        requires
            y * m == one * c + f,
            m * w == one,
            g == y - c * w,
    ;
    assert(0 <= g < w) by (nonlinear_arith)
        requires
            0 <= m * g < m * w,
            m >= 1,
    ;
    let q = r * w;
    assert(0 <= q && q + w <= one) by (nonlinear_arith)
        requires
            q == r * w,
            0 <= r <= m - 1,
            m * w == one,
            w >= 1,
    ;
    assert(c * w == i * one + q) by (nonlinear_arith)
        requires
            c == m * i + r,
            m * w == one,
            q == r * w,
    ;
    assert((c + 1) * w == c * w + w) by (nonlinear_arith);
    lemma_fundamental_div_mod_converse(c * w, one, i, q);
    assert(y == i * one + (q + g));
    lemma_fundamental_div_mod_converse(y, one, i, q + g);
    let (u, v) = (a(i), a(i + 1));
    assert(exact(a, c * w) == u * (one - q) + v * q);
    assert(exact(a, (c + 1) * w) == u * (one - (q + w)) + v * (q + w)) by {
        if q + w < one {
            lemma_fundamental_div_mod_converse((c + 1) * w, one, i, q + w);
        } else {
            assert((i + 1) * one == i * one + one) by (nonlinear_arith);
            lemma_fundamental_div_mod_converse((c + 1) * w, one, i + 1, 0);
            assert(v * (one - 0) + a(i + 2) * 0 == u * (one - (q + w)) + v * (q + w))
                by (nonlinear_arith)
                requires
                    q + w == one,
            ;
        }
    }
    assert(w * f == one * g) by (nonlinear_arith)
        requires
            f == m * g,
            m * w == one,
    ;
    lemma_refined_sum(u, v, one, q, w, f, g);
}

proof fn lemma_refined_sum(u: int, v: int, one: int, q: int, w: int, f: int, g: int)
    requires
        w * f == one * g,
    ensures
        (u * (one - q) + v * q) * (one - f) + (u * (one - (q + w)) + v * (q + w)) * f == (u * (one - (q
            + g)) + v * (q + g)) * one,
{
    let a = u * (one - q) + v * q;
    let b = u * (one - (q + w)) + v * (q + w);
    assert(b == a + (v - u) * w) by (nonlinear_arith)
        requires
            a == u * (one - q) + v * q,
            b == u * (one - (q + w)) + v * (q + w),
    ;
    assert(a * (one - f) + b * f == a * one + (v - u) * (w * f)) by (nonlinear_arith)
        requires
            b == a + (v - u) * w,
    ;
    assert(u * (one - (q + g)) + v * (q + g) == a + (v - u) * g) by (nonlinear_arith)
        requires
            a == u * (one - q) + v * q,
    ;
    assert((a + (v - u) * g) * one == a * one + (v - u) * (one * g)) by (nonlinear_arith);
}

/// Interpolation takes a sum of tables to the sum of what it makes of them.
proof fn lemma_exact_sum(
    f: spec_fn(int) -> int,
    g: spec_fn(int) -> int,
    h: spec_fn(int) -> int,
    u: int,
    v: int,
    q: int,
    y: int,
)
    requires
        f(y / unity()) * u + g(y / unity()) * v == h(y / unity()) * q,
        f(y / unity() + 1) * u + g(y / unity() + 1) * v == h(y / unity() + 1) * q,
    ensures
        exact(f, y) * u + exact(g, y) * v == exact(h, y) * q,
{
    let one = unity();
    let (i, r) = (y / one, y % one);
    let (f0, f1, g0, g1, h0, h1) = (f(i), f(i + 1), g(i), g(i + 1), h(i), h(i + 1));
    let s = one - r;
    assert((f0 * s + f1 * r) * u == (f0 * u) * s + (f1 * u) * r) by (nonlinear_arith);
    assert((g0 * s + g1 * r) * v == (g0 * v) * s + (g1 * v) * r) by (nonlinear_arith);
    let (a, b, c, e) = (f0 * u, f1 * u, g0 * v, g1 * v);
    assert((a + c) * s + (b + e) * r == a * s + b * r + (c * s + e * r)) by (nonlinear_arith);
    assert((h0 * q) * s + (h1 * q) * r == (h0 * s + h1 * r) * q) by (nonlinear_arith);
}

/// The values of a cube at the cells of the texture.
pub open spec fn cells(d: spec_fn(int, int, int) -> int, w: int) -> spec_fn(int, int, int) -> int {
    |a: int, b: int, c: int| trilinear(d, a * w, b * w, c * w)
}

/// The first axis is refined.
proof fn lemma_refine_first(
    d: spec_fn(int, int, int) -> int,
    m: int,
    w: int,
    x: int,
    b: int,
    c: int,
)
    requires
        m >= 1,
        w >= 1,
        m * w == unity(),
        x >= 0,
    ensures
        exact(row(cells(d, w), b, c), x * m) == trilinear(d, x, b * w, c * w) * unity(),
{
    let one = unity();
    let (i, f) = ((x * m) / one, (x * m) % one);
    let (p, q) = (i * w, (i + 1) * w);
    let (u, v) = (one - f, f);
    assert forall|k: int| #[trigger]
        plane(d, p, b * w)(k) * u + plane(d, q, b * w)(k) * v == plane(d, x, b * w)(k) * one by {
        assert forall|j: int| #[trigger]
            line(d, p, k)(j) * u + line(d, q, k)(j) * v == line(d, x, k)(j) * one by {
            lemma_refine(row(d, j, k), m, w, x);
        }
        let y = b * w;
        assert(line(d, p, k)(y / one) * u + line(d, q, k)(y / one) * v == line(d, x, k)(y / one) * one);
        assert(line(d, p, k)(y / one + 1) * u + line(d, q, k)(y / one + 1) * v == line(d, x, k)(
            y / one + 1,
        ) * one);
        lemma_exact_sum(line(d, p, k), line(d, q, k), line(d, x, k), u, v, one, y);
    }
    let (f0, f1, f2) = (plane(d, p, b * w), plane(d, q, b * w), plane(d, x, b * w));
    let z = c * w;
    assert(f0(z / one) * u + f1(z / one) * v == f2(z / one) * one);
    assert(f0(z / one + 1) * u + f1(z / one + 1) * v == f2(z / one + 1) * one);
    lemma_exact_sum(f0, f1, f2, u, v, one, z);
}

/// The second axis is refined, once the first is.
proof fn lemma_refine_second(
    d: spec_fn(int, int, int) -> int,
    m: int,
    w: int,
    x: int,
    y: int,
    c: int,
)
    requires
        m >= 1,
        w >= 1,
        m * w == unity(),
        x >= 0,
        y >= 0,
    ensures
        exact(line(cells(d, w), x * m, c), y * m) == trilinear(d, x, y, c * w) * unity() * unity(),
{
    let one = unity();
    let (i, f) = ((y * m) / one, (y * m) % one);
    let (p, q) = (i * w, (i + 1) * w);
    let (u, v) = (one - f, f);
    lemma_refine_first(d, m, w, x, i, c);
    lemma_refine_first(d, m, w, x, i + 1, c);
    let (f0, f1, f2) = (plane(d, x, p), plane(d, x, q), plane(d, x, y));
    assert forall|k: int| #[trigger] f0(k) * u + f1(k) * v == f2(k) * one by {
        lemma_refine(line(d, x, k), m, w, y);
    }
    let z = c * w;
    assert(f0(z / one) * u + f1(z / one) * v == f2(z / one) * one);
    assert(f0(z / one + 1) * u + f1(z / one + 1) * v == f2(z / one + 1) * one);
    lemma_exact_sum(f0, f1, f2, u, v, one, z);
    let (s, t, r) = (exact(f0, z), exact(f1, z), exact(f2, z));
    lemma_scaled_sum(s, t, u, v, r * one, one);
}

/// A sum of products, scaled.
proof fn lemma_scaled_sum(s: int, t: int, u: int, v: int, r: int, k: int)
    requires
        s * u + t * v == r,
    ensures
        (s * k) * u + (t * k) * v == r * k,
{
    let (a, b) = (s * u, t * v);
    assert((s * k) * u == a * k) by (nonlinear_arith)
        requires
            a == s * u,
    ;
    assert((t * k) * v == b * k) by (nonlinear_arith)
        requires
            b == t * v,
    ;
    assert((a + b) * k == a * k + b * k) by (nonlinear_arith);
}

/// All three axes are refined.
proof fn lemma_refine_all(
    d: spec_fn(int, int, int) -> int,
    m: int,
    w: int,
    x: int,
    y: int,
    z: int,
)
    requires
        m >= 1,
        w >= 1,
        m * w == unity(),
        x >= 0,
        y >= 0,
        z >= 0,
    ensures
        trilinear(cells(d, w), x * m, y * m, z * m) == trilinear(d, x, y, z) * unity() * unity()
            * unity(),
{
    let one = unity();
    let (i, f) = ((z * m) / one, (z * m) % one);
    let (u, v) = (one - f, f);
    lemma_refine_second(d, m, w, x, y, i);
    lemma_refine_second(d, m, w, x, y, i + 1);
    lemma_refine(plane(d, x, y), m, w, z);
    let (s, t) = (trilinear(d, x, y, i * w), trilinear(d, x, y, (i + 1) * w));
    let r = trilinear(d, x, y, z);
    assert(s * u + t * v == r * one);
    lemma_scaled_sum(s, t, u, v, r * one, one);
    lemma_scaled_sum(s * one, t * one, u, v, r * one * one, one);
}

/// The value that the `c`-th cell of an axis stands for in a domain.
#[verifier::opaque]
pub open spec fn cell_color(c: nat, min: Single, max: Single) -> Single {
    gpu::in_domain(gpu::level(c, 65), min, max)
}

/// Where the domain places the value of the `c`-th cell of an axis.
#[verifier::opaque]
pub open spec fn cell_place(c: nat, min: Single, max: Single) -> Single {
    lut::placed(cell_color(c, min, max), min, max)
}

/// The colors of the cells are found again in the domain, each of the 64 steps
/// to within `e`.
pub open spec fn cells_found(t: lut::Table, e: int) -> bool {
    forall|i: int, c: nat|
        0 <= i < 3 && c <= 64 ==> {
            let p = #[trigger] cell_place(c, t.domain_min[i], t.domain_max[i]);
            &&& plain(p)
            &&& amount(p) <= unity()
            &&& close(amount(p) * 64, c * unity(), e)
        }
}

/// The error of a cell of the texture.
pub open spec fn cell_error(e: int) -> int {
    402 * slip() + 3 * e
}

/// A cell found on an axis of the cube.
proof fn lemma_found(a: int, c: nat, m: nat, last: nat, w: int, e: int)
    requires
        0 <= a <= unity(),
        close(a * 64, c * unity(), e),
        last * m == 64,
        m * w == unity(),
        c <= 64,
        e >= 0,
        w >= 1,
    ensures
        close(a * last, c * w, e),
        0 <= a * last <= last * unity(),
        0 <= c * w <= last * unity(),
{
    let one = unity();
    lut::identity::lemma_sizes();
    let (x, y) = (a * last, c * w);
    assert(x * m == a * 64) by (nonlinear_arith)
        requires
            x == a * last,
            last * m == 64,
    ;
    assert(y * m == c * one) by (nonlinear_arith)
        requires
            y == c * w,
            m * w == one,
    ;
    assert(m >= 1) by (nonlinear_arith)
        requires
            last * m == 64,
            m >= 0,
    ;
    assert(close(x, y, e)) by (nonlinear_arith)
        requires
            close(x * m, y * m, e),
            m >= 1,
            e >= 0,
    ;
    assert(0 <= x <= last * one) by (nonlinear_arith)
        requires
            0 <= a <= one,
            x == a * last,
            last >= 0,
    ;
    assert(64 * w == last * one) by (nonlinear_arith)
        requires
            last * m == 64,
            m * w == one,
    ;
    assert(0 <= y <= 64 * w) by (nonlinear_arith)
        requires
            y == c * w,
            0 <= c <= 64,
            w >= 1,
    ;
}

/// A channel of a cube at a position.
#[verifier::opaque]
spec fn taken(t: lut::Table, p: [Single; 3], ch: int) -> Single {
    t.cube_at(p, ch)
}

/// The positions on the three axes run from 0 to 1.
spec fn in_unit(p: [Single; 3]) -> bool {
    &&& plain(p[0]) && plain(p[1]) && plain(p[2])
    &&& amount(p[0]) <= unity() && amount(p[1]) <= unity() && amount(p[2]) <= unity()
}

/// What is taken of a cube is close to exact interpolation.
proof fn lemma_taken(
    t: lut::Table,
    ch: int,
    d: spec_fn(int, int, int) -> int,
    k: int,
    e: int,
    h: int,
    p: [Single; 3],
)
    requires
        stands_for(t, ch, d, k, e, h),
        1 <= t.size <= 257,
        all_within(d, (t.size - 1) as nat, unity() * k),
        k >= 1,
        e >= 0,
        0 <= h <= 15 * slip(),
        in_unit(p),
    ensures
        plain(taken(t, p, ch)),
        amount(taken(t, p, ch)) <= unity() + h + 15 * slip(),
        close(
            amount(taken(t, p, ch)) * (unity() * (unity() * (unity() * k))),
            trilinear(
                d,
                amount(p[0]) * (t.size - 1),
                amount(p[1]) * (t.size - 1),
                amount(p[2]) * (t.size - 1),
            ),
            (e + 3 * (134 * slip())) * (unity() * (unity() * (unity() * k))),
        ),
{
    reveal(taken);
    lut::interpolation::lemma_cube(t, ch, d, k, e, h, p);
}

/// The position that a cell of the texture is taken from.
proof fn lemma_cell_position(t: lut::Table, ch: int, r: nat, g: nat, b: nat) -> (p: [Single; 3])
    requires
        t.cube,
        0 <= ch < 3,
        r <= 64,
        g <= 64,
        b <= 64,
    ensures
        lut::resampling::resampled_table(t).entry(r, g, b)[ch] == taken(t, p, ch),
        p[0] == cell_place(r, t.domain_min[0], t.domain_max[0]),
        p[1] == cell_place(g, t.domain_min[1], t.domain_max[1]),
        p[2] == cell_place(b, t.domain_min[2], t.domain_max[2]),
{
    let x = cell_color(r, t.domain_min[0], t.domain_max[0]);
    let y = cell_color(g, t.domain_min[1], t.domain_max[1]);
    let z = cell_color(b, t.domain_min[2], t.domain_max[2]);
    let rgb = [x, y, z];
    lemma_entry_is_texel(t, r, g, b);
    lemma_cell_color(t, r, g, b, rgb, ch);
    let p = lemma_color_taken(t, rgb, ch);
    lemma_cell_place(r, t.domain_min[0], t.domain_max[0]);
    lemma_cell_place(g, t.domain_min[1], t.domain_max[1]);
    lemma_cell_place(b, t.domain_min[2], t.domain_max[2]);
    p
}

/// Where a value lies in a domain.
#[verifier::opaque]
spec fn position(v: Single, min: Single, max: Single) -> Single {
    lut::placed(v, min, max)
}

/// The color of a cell of the texture.
#[verifier::opaque]
spec fn texel(t: lut::Table, r: nat, g: nat, b: nat) -> [Single; 3] {
    gpu::resampled(t, 65)(r, g, b)
}

/// A channel of what a table gives for a color.
#[verifier::opaque]
spec fn got(t: lut::Table, rgb: [Single; 3], ch: int) -> Single {
    t.sampled(rgb)[ch]
}

proof fn lemma_cell_place(c: nat, min: Single, max: Single)
    ensures
        cell_place(c, min, max) == position(cell_color(c, min, max), min, max),
{
    reveal(cell_place);
    reveal(position);
}

proof fn lemma_entry_is_texel(t: lut::Table, r: nat, g: nat, b: nat)
    requires
        r <= 64,
        g <= 64,
        b <= 64,
    ensures
        lut::resampling::resampled_table(t).entry(r, g, b) == texel(t, r, g, b),
{
    reveal(texel);
    lut::resampling::lemma_resampled_entry(t, r, g, b);
}

/// What is resampled is the source at the color of the cell.
#[verifier::rlimit(40)]
proof fn lemma_cell_color(t: lut::Table, r: nat, g: nat, b: nat, rgb: [Single; 3], ch: int)
    requires
        rgb[0] == cell_color(r, t.domain_min[0], t.domain_max[0]),
        rgb[1] == cell_color(g, t.domain_min[1], t.domain_max[1]),
        rgb[2] == cell_color(b, t.domain_min[2], t.domain_max[2]),
    ensures
        texel(t, r, g, b)[ch] == got(t, rgb, ch),
{
    reveal(texel);
    reveal(got);
    reveal(cell_color);
    let cell = [
        gpu::in_domain(gpu::level(r, 65), t.domain_min[0], t.domain_max[0]),
        gpu::in_domain(gpu::level(g, 65), t.domain_min[1], t.domain_max[1]),
        gpu::in_domain(gpu::level(b, 65), t.domain_min[2], t.domain_max[2]),
    ];
    assert(cell =~= rgb);
    assert(gpu::resampled(t, 65)(r, g, b) == t.sampled(cell));
}

/// What a color gets of a cube is taken at its position.
proof fn lemma_color_taken(t: lut::Table, rgb: [Single; 3], ch: int) -> (p: [Single; 3])
    requires
        t.cube,
        0 <= ch < 3,
    ensures
        got(t, rgb, ch) == taken(t, p, ch),
        p[0] == position(rgb[0], t.domain_min[0], t.domain_max[0]),
        p[1] == position(rgb[1], t.domain_min[1], t.domain_max[1]),
        p[2] == position(rgb[2], t.domain_min[2], t.domain_max[2]),
{
    reveal(taken);
    reveal(got);
    reveal(position);
    t.normalized(rgb)
}

/// A cell of the texture holds the cube there, within [`cell_error`].
proof fn lemma_cell(
    t: lut::Table,
    ch: int,
    d: spec_fn(int, int, int) -> int,
    m: nat,
    w: int,
    e: int,
    r: nat,
    g: nat,
    b: nat,
)
    requires
        t.cube,
        2 <= t.size <= 65,
        (t.size - 1) * m == 64,
        m * w == unity(),
        w >= 1,
        stands_for(t, ch, d, 1, 0, 0),
        all_within(d, (t.size - 1) as nat, unity() * 1),
        cells_found(t, e),
        0 <= e <= unity(),
        0 <= ch < 3,
        r <= 64,
        g <= 64,
        b <= 64,
    ensures
        ({
            let c = lut::resampling::resampled_table(t).entry(r, g, b)[ch];
            let k = unity() * (unity() * unity());
            &&& plain(c)
            &&& amount(c) <= unity() + 15 * slip()
            &&& close(amount(c) * k, cells(d, w)(r as int, g as int, b as int), cell_error(e) * k)
        }),
{
    let one = unity();
    let s = slip();
    let last = (t.size - 1) as nat;
    lut::identity::lemma_sizes();
    let p = lemma_cell_position(t, ch, r, g, b);
    assert(in_unit(p));
    lemma_taken(t, ch, d, 1, 0, 0, p);
    lemma_found(amount(p[0]), r, m, last, w, e);
    lemma_found(amount(p[1]), g, m, last, w, e);
    lemma_found(amount(p[2]), b, m, last, w, e);
    let x = (amount(p[0]) * last, amount(p[1]) * last, amount(p[2]) * last);
    let y = (r * w, g * w, b * w);
    lut::interpolation::lemma_trilinear_near(d, last, 1, x, y, e);
    let k = one * (one * one);
    assert(one * (one * (one * 1)) == k);
    let tri = trilinear(d, x.0, x.1, x.2);
    let (n, v) = (amount(taken(t, p, ch)), trilinear(d, y.0, y.1, y.2));
    lemma_add_errors(n * k, tri, v, 0 + 3 * (134 * s), e, k);
}

/// Errors add up.
proof fn lemma_add_errors(n: int, tri: int, v: int, a: int, e: int, k: int)
    requires
        close(n, tri, a * k),
        close(tri, v, 3 * (e * k)),
    ensures
        close(n, v, (a + 3 * e) * k),
{
    assert((a + 3 * e) * k == a * k + 3 * (e * k)) by (nonlinear_arith);
}

/// The texture stands for the cube at its cells.
proof fn lemma_texture(
    t: lut::Table,
    ch: int,
    d: spec_fn(int, int, int) -> int,
    m: nat,
    w: int,
    e: int,
)
    requires
        t.cube,
        2 <= t.size <= 65,
        (t.size - 1) * m == 64,
        m * w == unity(),
        w >= 1,
        stands_for(t, ch, d, 1, 0, 0),
        all_within(d, (t.size - 1) as nat, unity() * 1),
        cells_found(t, e),
        0 <= e <= unity(),
        0 <= ch < 3,
    ensures
        stands_for(
            lut::resampling::resampled_table(t),
            ch,
            cells(d, w),
            unity() * (unity() * unity()),
            cell_error(e),
            15 * slip(),
        ),
        all_within(cells(d, w), 64, unity() * (unity() * (unity() * unity()))),
{
    let one = unity();
    let last = (t.size - 1) as nat;
    let k = one * (one * one);
    let big = lut::resampling::resampled_table(t);
    lut::identity::lemma_sizes();
    assert(stands_for(big, ch, cells(d, w), k, cell_error(e), 15 * slip())) by {
        reveal(stands_for);
        assert forall|r: nat, g: nat, b: nat| r < big.size && g < big.size && b < big.size implies ({
            let c = #[trigger] big.entry(r, g, b)[ch];
            &&& plain(c)
            &&& amount(c) <= unity() + 15 * slip()
            &&& close(amount(c) * k, cells(d, w)(r as int, g as int, b as int), cell_error(e) * k)
        }) by {
            lemma_cell(t, ch, d, m, w, e, r, g, b);
        }
    }
    assert(64 * w == last * one) by (nonlinear_arith)
        requires
            last * m == 64,
            m * w == one,
    ;
    assert forall|i: int, j: int, n: int| 0 <= i <= 64 && 0 <= j <= 64 && 0 <= n <= 64 implies 0
        <= #[trigger] cells(d, w)(i, j, n) <= one * k by {
        assert(0 <= i * w <= 64 * w && 0 <= j * w <= 64 * w && 0 <= n * w <= 64 * w)
            by (nonlinear_arith)
            requires
                0 <= i <= 64,
                0 <= j <= 64,
                0 <= n <= 64,
                w >= 1,
        ;
        lut::interpolation::lemma_lines_within(d, last, 1, i * w, j * w);
        let top = one * (one * (one * 1));
        assert(top == k && k >= 0) by (nonlinear_arith)
            requires
                top == one * (one * (one * 1)),
                k == one * (one * one),
                one > 0,
        ;
        lut::interpolation::lemma_exact_within(plane(d, i * w, j * w), last, top, n * w);
        assert(k * one == one * k) by (nonlinear_arith);
    }
}

/// A divisor of 64 divides one.
proof fn lemma_step(m: nat, last: nat) -> (w: int)
    requires
        last * m == 64,
    ensures
        w >= 1,
        m * w == unity(),
        1 <= m <= 64,
        1 <= last <= 64,
{
    lemma2_to64();
    lemma_pow2_pos(143);
    lemma_pow2_adds(6, 143);
    let w = last * pow2(143);
    assert(m >= 1 && last >= 1) by (nonlinear_arith)
        requires
            last * m == 64,
            m >= 0,
            last >= 0,
    ;
    assert(m <= 64 && last <= 64) by (nonlinear_arith)
        requires
            last * m == 64,
            m >= 1,
            last >= 1,
    ;
    assert(m * w == 64 * pow2(143)) by (nonlinear_arith)
        requires
            w == last * pow2(143),
            last * m == 64,
    ;
    assert(w >= 1) by (nonlinear_arith)
        requires
            w == last * pow2(143),
            last >= 1,
            pow2(143) >= 1,
    ;
    w as int
}

/// The domain from 0 to 1 lets every cell be found again exactly.
pub proof fn law_unit_domain_finds_its_cells(t: lut::Table)
    requires
        t.domain_min == [Single::zero(), Single::zero(), Single::zero()],
        t.domain_max == [Single::one(), Single::one(), Single::one()],
    ensures
        cells_found(t, 0),
{
    assert forall|i: int, c: nat| 0 <= i < 3 && c <= 64 implies ({
        let p = #[trigger] cell_place(c, t.domain_min[i], t.domain_max[i]);
        &&& plain(p)
        &&& amount(p) <= unity()
        &&& close(amount(p) * 64, c * unity(), 0)
    }) by {
        assert(t.domain_min[i] == Single::zero() && t.domain_max[i] == Single::one());
        lemma_unit_cell(c);
    }
}

proof fn lemma_unit_cell(c: nat)
    requires
        c <= 64,
    ensures
        ({
            let p = cell_place(c, Single::zero(), Single::one());
            &&& plain(p)
            &&& amount(p) <= unity()
            &&& amount(p) * 64 == c * unity()
        }),
{
    reveal(cell_place);
    reveal(cell_color);
    lut::resampling::lemma_level(c);
    let l = gpu::level(c, 65);
    lut::resampling::lemma_in_unit_domain(l);
    lut::identity::lemma_placed(l);
    lemma2_to64();
    lemma_pow2_adds(6, 143);
    assert((c * pow2(143)) * 64 == c * (64 * pow2(143))) by (nonlinear_arith);
}

/// Upsampling to the size of the texture is lossless: sampling the resampled
/// table gives for every color, in the domain or beyond, what the source gives,
/// to within 1206 * 2^-24 and three times the error with which the domain lets
/// the cells be found again.
///
/// The edge of the source is one more than a divisor of 64, so that its entries
/// fall on cells, and its entries run from 0 to 1.
pub proof fn law_upsampling_is_lossless(
    t: lut::Table,
    m: nat,
    rgb: [Single; 3],
    ch: int,
    e: int,
)
    requires
        t.complete(),
        t.cube,
        t.size >= 2,
        (t.size - 1) * m == 64,
        lut::domain::has_spread(t),
        lut::interpolation::ranges(t, ch, Single::zero(), Single::one()),
        cells_found(t, e),
        0 <= e <= unity(),
        !rgb[0].nan(),
        !rgb[1].nan(),
        !rgb[2].nan(),
        0 <= ch < 3,
    ensures
        ({
            let fine = lut::resampling::resampled_table(t).sampled(rgb)[ch];
            let source = t.sampled(rgb)[ch];
            &&& plain(fine)
            &&& plain(source)
            &&& close(amount(fine), amount(source), 1206 * slip() + 3 * e)
        }),
{
    let one = unity();
    let s = slip();
    let last = (t.size - 1) as nat;
    lut::identity::lemma_sizes();
    let w = lemma_step(m, last);
    let big = lut::resampling::resampled_table(t);
    let p = lemma_color_position(t, big, rgb, ch);
    let d = lut::interpolation::lemma_amounts(t, ch);
    lemma_taken(t, ch, d, 1, 0, 0, p);
    lemma_texture(t, ch, d, m, w, e);
    let k = one * (one * one);
    assert(k >= 1) by (nonlinear_arith)
        requires
            k == one * (one * one),
            one >= 1,
    ;
    lemma_taken(big, ch, cells(d, w), k, cell_error(e), 15 * s, p);
    let (x, y, z) = (amount(p[0]) * last, amount(p[1]) * last, amount(p[2]) * last);
    lemma_apart(amount(p[0]), last, m);
    lemma_apart(amount(p[1]), last, m);
    lemma_apart(amount(p[2]), last, m);
    lemma_refine_all(d, m as int, w, x, y, z);
    let (f, g) = (amount(taken(big, p, ch)), amount(taken(t, p, ch)));
    let tri = trilinear(d, x, y, z);
    lemma_compare(f, g, tri, one, k, s, e);
}

/// The position that a color is sampled at, in two tables of one domain.
proof fn lemma_color_position(t: lut::Table, u: lut::Table, rgb: [Single; 3], ch: int) -> (p:
    [Single; 3])
    requires
        t.cube,
        u.cube,
        t.domain_min == u.domain_min,
        t.domain_max == u.domain_max,
        lut::domain::has_spread(t),
        !rgb[0].nan(),
        !rgb[1].nan(),
        !rgb[2].nan(),
        0 <= ch < 3,
    ensures
        in_unit(p),
        t.sampled(rgb)[ch] == taken(t, p, ch),
        u.sampled(rgb)[ch] == taken(u, p, ch),
{
    reveal(taken);
    lut::interpolation::lemma_positions(t, rgb);
    t.normalized(rgb)
}

/// A position on the finer axis is one on the coarser axis, in smaller steps.
proof fn lemma_apart(a: int, last: nat, m: nat)
    requires
        a >= 0,
        last * m == 64,
    ensures
        a * last >= 0,
        (a * last) * m == a * 64,
{
    assert(a * last >= 0 && (a * last) * m == a * 64) by (nonlinear_arith)
        requires
            a >= 0,
            last >= 0,
            last * m == 64,
    ;
}

/// Two samples close to one exact value are close to each other.
proof fn lemma_compare(f: int, g: int, tri: int, one: int, k: int, s: int, e: int)
    requires
        k == one * (one * one),
        one >= 1,
        k >= 1,
        close(
            f * (one * (one * (one * k))),
            tri * one * one * one,
            (402 * s + 3 * e + 3 * (134 * s)) * (one * (one * (one * k))),
        ),
        close(g * (one * (one * (one * 1))), tri, (0 + 3 * (134 * s)) * (one * (one * (one * 1)))),
    ensures
        close(f, g, 1206 * s + 3 * e),
{
    let q = k * k;
    let b = 402 * s;
    let a = 804 * s + 3 * e;
    assert(one * (one * (one * k)) == (one * (one * one)) * k) by (nonlinear_arith);
    assert(tri * one * one * one == tri * (one * (one * one))) by (nonlinear_arith);
    assert(one * (one * (one * 1)) == k);
    assert(q >= 1) by (nonlinear_arith)
        requires
            q == k * k,
            k >= 1,
    ;
    assert(402 * s + 3 * e + 3 * (134 * s) == a && 0 + 3 * (134 * s) == b);
    lut::interpolation::lemma_spread(g * k, tri, b * k, k);
    assert((g * k) * k == g * q && (b * k) * k == b * q) by (nonlinear_arith)
        requires
            q == k * k,
    ;
    let (x, c) = (f - g, a + b);
    assert(x * q == f * q - g * q && c * q == a * q + b * q) by (nonlinear_arith)
        requires
            x == f - g,
            c == a + b,
    ;
    assert(-c <= x <= c) by (nonlinear_arith)
        requires
            -(c * q) <= x * q <= c * q,
            q >= 1,
    ;
}

} // verus!
