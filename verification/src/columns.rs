//! Which stretch of audio a column of the drawing shows, in exact arithmetic.

use crate::audio::instants;
use crate::audio::instants::{blur, fine_units, power, spans, unit};
use crate::color::lut::identity::close;
use crate::ieee::double::Double;
use crate::ieee::grid;
use crate::ieee::grid::Format;
use crate::ieee::number;
use crate::timeline::Lane;
use vstd::arithmetic::power2::*;
use vstd::prelude::*;

verus! {

/// A lane of ordinary size: up to 8192 pixels, four and a half hours of video, and
/// a shift of nine hours.
pub open spec fn is_ordinary(lane: Lane) -> bool {
    &&& spans(lane.width, 13) && unit() <= fine_units(lane.width)
    &&& spans(lane.visible_left, 0) && spans(lane.visible_right, 0)
    &&& 0 <= fine_units(lane.visible_left) <= fine_units(lane.visible_right)
    &&& spans(lane.duration_ms, 24) && 0 <= fine_units(lane.duration_ms)
    &&& spans(lane.offset_seconds, 15)
}

/// Some powers of two, and blurs.
proof fn lemma_sizes()
    ensures
        unit() > 0,
        power(0) == unit(),
        power(13) == 0x2000 * unit(),
        power(15) == 0x8000 * unit(),
        power(16) == 0x1_0000 * unit(),
        power(18) == 0x4_0000 * unit(),
        power(24) == 0x100_0000 * unit(),
        power(29) == 0x2000_0000 * unit(),
        power(30) == 0x4000_0000 * unit(),
        power(31) == 0x8000_0000 * unit(),
        power(49) == 0x2_0000_0000_0000 * unit(),
        blur(15) >= 1,
        4 * (blur(13) - 1) == blur(15) - 1,
        blur(16) - 1 == 2 * (blur(15) - 1),
        blur(18) - 1 == 8 * (blur(15) - 1),
        blur(29) - 1 == 0x4000 * (blur(15) - 1),
        blur(30) - 1 == 0x8000 * (blur(15) - 1),
        blur(31) - 1 == 0x1_0000 * (blur(15) - 1),
        blur(49) - 1 == 0x4_0000_0000 * (blur(15) - 1),
        unit() == 0x40_0000_0000 * (blur(15) - 1),
        blur(15) - 1 >= 0x1_0000_0000_0000_0000,
{
    lemma2_to64();
    lemma2_to64_rest();
    instants::lemma_powers(0);
    instants::lemma_powers(13);
    instants::lemma_powers(15);
    instants::lemma_powers(16);
    instants::lemma_powers(18);
    instants::lemma_powers(24);
    instants::lemma_powers(29);
    instants::lemma_powers(30);
    instants::lemma_powers(31);
    instants::lemma_powers(49);
    lemma_pow2_strictly_increases(64, 1036);
    lemma_pow2_adds(2, 1034);
    lemma_pow2_adds(1, 1036);
    lemma_pow2_adds(3, 1036);
    lemma_pow2_adds(14, 1036);
    lemma_pow2_adds(15, 1036);
    lemma_pow2_adds(16, 1036);
    lemma_pow2_adds(34, 1036);
    lemma_pow2_adds(38, 1036);
}

/// 1000.0.
proof fn lemma_thousand()
    ensures
        ({
            let m = Double { bits: 0x408f_4000_0000_0000 };
            &&& number::is_finite(Format::Double, m.number())
            &&& fine_units(m) == 1000 * unit()
        }),
{
    reveal(fine_units);
    let m = Double { bits: 0x408f_4000_0000_0000 };
    let b = 0x10_0000_0000_0000nat;
    assert(m.number().index == 0x408f_4000_0000_0000 && !m.number().negative);
    assert(0x408f_4000_0000_0000nat / b == 1032 && 0x408f_4000_0000_0000nat % b == 0xf_4000_0000_0000);
    let h = pow2(1031) as int;
    lemma2_to64_rest();
    lemma_pow2_adds(43, 1031);
    assert((0x10_0000_0000_0000 + 0xf_4000_0000_0000) * h == 1000 * (0x800_0000_0000 * h)) by (nonlinear_arith);
}

/// An instant is its fraction of the duration.
proof fn lemma_instant(lane: Lane, f: Double)
    requires
        is_ordinary(lane),
        spans(f, 0),
        0 <= fine_units(f),
    ensures
        ({
            let a = lane.instant(f);
            &&& spans(a, 15)
            &&& close(
                1000 * (fine_units(a) * unit()),
                fine_units(f) * fine_units(lane.duration_ms),
                2000 * (blur(15) * unit()),
            )
        }),
{
    let m = Double { bits: 0x408f_4000_0000_0000 };
    let (u, b) = (unit(), blur(15));
    lemma_sizes();
    lemma_thousand();
    let (d, x) = (fine_units(lane.duration_ms), fine_units(f));
    let k = 1000 * u;
    assert(-(power(15) * k) <= d * u <= power(15) * k) by (nonlinear_arith)
        requires
            0 <= d <= 0x100_0000 * u,
            power(15) == 0x8000 * u,
            k == 1000 * u,
            u > 0,
    ;
    instants::lemma_over(lane.duration_ms, m, 15);
    let s = lane.duration_ms.over(m);
    let us = fine_units(s);
    assert(close(1000 * us, d, 1000 * b)) by (nonlinear_arith)
        requires
            close(us * k, d * u, b * k),
            k == 1000 * u,
            u > 0,
    ;
    assert(-(power(15) * u) <= x * us <= power(15) * u) by (nonlinear_arith)
        requires
            0 <= x <= u,
            -power(15) <= us <= power(15),
            u > 0,
    ;
    instants::lemma_times(f, s, 15);
    let ua = fine_units(f.times(s));
    assert(close(1000 * (ua * u), x * d, 2000 * (b * u))) by (nonlinear_arith)
        requires
            close(ua * u, x * us, b * u),
            close(1000 * us, d, 1000 * b),
            0 <= x <= u,
            b >= 1,
    {
        let e = 1000 * us - d;
        assert(1000 * (x * us) == x * d + x * e);
        assert(-(u * (1000 * b)) <= x * e <= u * (1000 * b));
    }
}

/// The time that a pixel takes.
proof fn lemma_step(lane: Lane)
    requires
        is_ordinary(lane),
    ensures
        ({
            let s = fine_units(lane.seconds_per_pixel());
            let w = fine_units(lane.width);
            let r = fine_units(lane.visible_right) - fine_units(lane.visible_left);
            &&& spans(lane.seconds_per_pixel(), 16)
            &&& close(1000 * (s * w), r * fine_units(lane.duration_ms), 8000 * (blur(15) * w))
        }),
{
    let (u, b) = (unit(), blur(15));
    lemma_sizes();
    lemma_instant(lane, lane.visible_left);
    lemma_instant(lane, lane.visible_right);
    let (p, q) = (lane.instant(lane.visible_left), lane.instant(lane.visible_right));
    let (x, y) = (fine_units(p), fine_units(q));
    instants::lemma_minus(q, p, 16);
    let c = q.minus(p);
    let (uc, w) = (fine_units(c), fine_units(lane.width));
    assert(-(power(16) * w) <= uc * u <= power(16) * w) by (nonlinear_arith)
        requires
            -power(16) <= uc <= power(16),
            power(16) > 0,
            w >= u,
            u > 0,
    {
        assert(uc * u <= power(16) * u <= power(16) * w);
        assert(-(power(16) * u) <= uc * u);
    }
    instants::lemma_over(c, lane.width, 16);
    let s = fine_units(c.over(lane.width));
    let d = fine_units(lane.duration_ms);
    let (l, r) = (fine_units(lane.visible_left), fine_units(lane.visible_right));
    let k = b * u;
    let n = b * w;
    assert(k <= n && k > 0) by (nonlinear_arith)
        requires
            k == b * u,
            n == b * w,
            w >= u,
            u > 0,
            b >= 1,
    ;
    assert(blur(16) * w <= 2 * n && blur(16) * u <= 2 * k) by (nonlinear_arith)
        requires
            blur(16) <= 2 * b,
            n == b * w,
            k == b * u,
            w > 0,
            u > 0,
    ;
    assert(close(uc * u, y * u - x * u, 2 * k)) by (nonlinear_arith)
        requires
            close(uc, y - x, blur(16)),
            blur(16) * u <= 2 * k,
            u > 0,
    ;
    assert(r * d - l * d == (r - l) * d) by (nonlinear_arith);
    assert(close(1000 * (s * w), (r - l) * d, 8000 * n));
}

/// Where a column starts, before and after the shift.
proof fn lemma_start(lane: Lane, px: nat)
    requires
        is_ordinary(lane),
        px * unit() <= fine_units(lane.width),
    ensures
        ({
            let w = fine_units(lane.width);
            let (l, r) = (fine_units(lane.visible_left), fine_units(lane.visible_right));
            let k = 1000 * (w * unit());
            let exact = (l * w + (px * unit()) * (r - l)) * fine_units(lane.duration_ms)
                + fine_units(lane.offset_seconds) * k;
            let c = lane.column_start(px);
            &&& spans(c, 31)
            &&& close(fine_units(c) * k, exact, (0x3_4000 * blur(15)) * k)
        }),
{
    let (u, b) = (unit(), blur(15));
    lemma_sizes();
    lemma2_to64();
    let w = fine_units(lane.width);
    assert(px <= 0x2000) by (nonlinear_arith)
        requires
            px * u <= w,
            w <= 0x2000 * u,
            u > 0,
    ;
    lemma_step(lane);
    lemma_instant(lane, lane.visible_left);
    let step = lane.seconds_per_pixel();
    let a = lane.instant(lane.visible_left);
    let pd = Double::from_u64(px as u64);
    instants::lemma_integer(px as u64, 13);
    let (p, s, x) = (fine_units(pd), fine_units(step), fine_units(a));
    assert(-(power(29) * u) <= p * s <= power(29) * u) by (nonlinear_arith)
        requires
            0 <= p <= 0x2000 * u,
            -(0x1_0000 * u) <= s <= 0x1_0000 * u,
            power(29) == 0x2000_0000 * u,
            u > 0,
    {
        assert(-((0x2000 * u) * (0x1_0000 * u)) <= p * s <= (0x2000 * u) * (0x1_0000 * u));
        assert((0x2000 * u) * (0x1_0000 * u) == (0x2000_0000 * u) * u);
    }
    instants::lemma_times(pd, step, 29);
    let q = pd.times(step);
    let uq = fine_units(q);
    assert(power(15) + power(29) <= power(30));
    instants::lemma_plus(a, q, 30);
    let m = a.plus(q);
    assert(power(30) + power(15) <= power(31));
    instants::lemma_plus(m, lane.offset_seconds, 31);
    let c = m.plus(lane.offset_seconds);
    assert(c == lane.column_start(px));
    let (l, r) = (fine_units(lane.visible_left), fine_units(lane.visible_right));
    assert(blur(29) * u <= (0x4000 * b) * u) by (nonlinear_arith)
        requires
            blur(29) <= 0x4000 * b,
            u > 0,
    ;
    lemma_start_sum(
        fine_units(c),
        fine_units(m),
        fine_units(lane.offset_seconds),
        uq,
        x,
        p,
        s,
        px as int,
        l,
        r - l,
        fine_units(lane.duration_ms),
        w,
        u,
        b,
    );
}

proof fn lemma_start_sum(
    c: int,
    m: int,
    o: int,
    q: int,
    x: int,
    p: int,
    s: int,
    px: int,
    l: int,
    r: int,
    d: int,
    w: int,
    u: int,
    b: int,
)
    requires
        close(c, m + o, 0x1_0000 * b),
        close(m, x + q, 0x8000 * b),
        close(q * u, p * s, (0x4000 * b) * u),
        4 * (p - px * u) <= b + 4,
        4 * (px * u - p) <= b + 4,
        close(1000 * (x * u), l * d, 2000 * (b * u)),
        close(1000 * (s * w), r * d, 8000 * (b * w)),
        -(0x1_0000 * u) <= s <= 0x1_0000 * u,
        0 <= px <= 0x2000,
        w >= u,
        u > 0,
        b >= 0x1_0000_0000,
    ensures
        ({
            let k = 1000 * (w * u);
            close(c * k, (l * w + (px * u) * r) * d + o * k, (0x3_4000 * b) * k)
        }),
{
    let k = 1000 * (w * u);
    assert(k > 0) by (nonlinear_arith)
        requires
            k == 1000 * (w * u),
            w >= u,
            u > 0,
    ;
    let n = b * k;
    // Where the video starts.
    assert(close(x * k, (l * d) * w, 2 * n)) by (nonlinear_arith)
        requires
            close(1000 * (x * u), l * d, 2000 * (b * u)),
            k == 1000 * (w * u),
            n == b * k,
            w > 0,
    {
        let e = 1000 * (x * u) - l * d;
        assert(-((2000 * (b * u)) * w) <= e * w <= (2000 * (b * u)) * w);
        assert((2000 * (b * u)) * w == 2 * n);
        assert(x * k == (1000 * (x * u)) * w);
    }
    // The columns before.
    let (e3, e4) = (q * u - p * s, p - px * u);
    let t = 1000 * (s * w);
    assert(q * k == (px * u) * t + e4 * t + (1000 * w) * e3) by (nonlinear_arith)
        requires
            k == 1000 * (w * u),
            e3 == q * u - p * s,
            e4 == p - px * u,
            t == 1000 * (s * w),
    {
        assert(q * k == (1000 * w) * (q * u));
        assert((1000 * w) * (p * s) == p * t);
        assert(p * t == (px * u) * t + e4 * t);
    }
    assert(-(0x4000 * n) <= (1000 * w) * e3 <= 0x4000 * n) by (nonlinear_arith)
        requires
            -((0x4000 * b) * u) <= e3 <= (0x4000 * b) * u,
            k == 1000 * (w * u),
            n == b * k,
            w > 0,
    {
        let v = (0x4000 * b) * u;
        assert(-((1000 * w) * v) <= (1000 * w) * e3 <= (1000 * w) * v);
        assert((1000 * w) * v == 0x4000 * n);
    }
    assert(-(0x1_0000 * k) <= t <= 0x1_0000 * k) by (nonlinear_arith)
        requires
            t == 1000 * (s * w),
            -(0x1_0000 * u) <= s <= 0x1_0000 * u,
            k == 1000 * (w * u),
            w > 0,
    {
        assert(-((0x1_0000 * u) * w) <= s * w <= (0x1_0000 * u) * w);
    }
    assert(-(0x4001 * n) <= e4 * t <= 0x4001 * n) by (nonlinear_arith)
        requires
            -(b + 4) <= 4 * e4 <= b + 4,
            -(0x1_0000 * k) <= t <= 0x1_0000 * k,
            n == b * k,
            b >= 0x1_0000_0000,
            k > 0,
    {
        let v = 0x1_0000 * k;
        assert(-((b + 4) * v) <= (4 * e4) * t <= (b + 4) * v);
        assert((b + 4) * v == 0x1_0000 * n + 0x4_0000 * k);
        assert(0x4_0000 * k <= n) by {
            assert(b * k >= 0x1_0000_0000 * k);
        }
        assert((4 * e4) * t == 4 * (e4 * t));
    }
    let f = (px * u) * (r * d);
    assert(close((px * u) * t, f, 0x1_0000 * n)) by (nonlinear_arith)
        requires
            close(t, r * d, 8000 * (b * w)),
            0 <= px <= 0x2000,
            u > 0,
            w > 0,
            b > 0,
            k == 1000 * (w * u),
            n == b * k,
            f == (px * u) * (r * d),
    {
        let (e, v) = (t - r * d, px * u);
        let z = 8000 * (b * w);
        assert(0 <= v <= 0x2000 * u);
        assert(z > 0);
        assert(-(v * z) <= v * e <= v * z);
        assert(v * z <= (0x2000 * u) * z);
        assert((0x2000 * u) * z == 0x1_0000 * n);
        assert(v * t == v * (r * d) + v * e);
    }
    // Together.
    let (e1, e2) = (c - (m + o), m - (x + q));
    assert(c * k == o * k + x * k + q * k + e2 * k + e1 * k) by (nonlinear_arith)
        requires
            e1 == c - (m + o),
            e2 == m - (x + q),
    ;
    assert(-(0x1_0000 * n) <= e1 * k <= 0x1_0000 * n && -(0x8000 * n) <= e2 * k <= 0x8000 * n)
        by (nonlinear_arith)
        requires
            -(0x1_0000 * b) <= e1 <= 0x1_0000 * b,
            -(0x8000 * b) <= e2 <= 0x8000 * b,
            n == b * k,
            k > 0,
    ;
    assert((l * w + (px * u) * r) * d == (l * d) * w + f) by (nonlinear_arith)
        requires
            f == (px * u) * (r * d),
    ;
    assert((0x3_4000 * b) * k == 0x3_4000 * n) by (nonlinear_arith)
        requires
            n == b * k,
    ;
    assert(n > 0) by (nonlinear_arith)
        requires
            n == b * k,
            b > 0,
            k > 0,
    ;
}

/// A time in frames.
proof fn lemma_in_frames(s: Double, e: nat, exact: int, k: int, err: int, rate: u32)
    requires
        spans(s, e),
        e == 31 || e == 32,
        close(fine_units(s) * k, exact, (err * blur(15)) * k),
        0 <= err <= 0x5_8000,
        k > 0,
        rate <= 0x4_0000,
    ensures
        ({
            let p = s.times(Double::from_u64(rate as u64));
            &&& e == 31 && err <= 0x3_4000 ==> close(2 * (fine_units(p) * k), 2 * (exact * rate), unit() * k)
            &&& close(fine_units(p) * k, exact * rate, unit() * k)
        }),
{
    lemma_sizes();
    lemma_more_sizes();
    lemma2_to64();
    let (u, b) = (unit(), blur(15));
    let r = Double::from_u64(rate as u64);
    instants::lemma_integer(rate as u64, 18);
    let (x, y, n) = (fine_units(s), fine_units(r), rate as int);
    let j = (e + 18) as nat;
    assert(-(power(j) * u) <= x * y <= power(j) * u) by (nonlinear_arith)
        requires
            -power(e) <= x <= power(e),
            0 <= y <= 0x4_0000 * u,
            power(j) == 0x4_0000 * power(e),
            power(e) > 0,
            u > 0,
    {
        assert(-(power(e) * (0x4_0000 * u)) <= x * y <= power(e) * (0x4_0000 * u));
    }
    instants::lemma_times(s, r, j);
    let p = fine_units(s.times(r));
    // p u is x y, y is n u, and x k is exact.
    let (e1, e2, e3) = (p * u - x * y, y - n * u, x * k - exact);
    let z = x * y;
    assert((p * k) * u == z * k + e1 * k) by (nonlinear_arith)
        requires
            e1 == p * u - z,
    {
        assert((p * k) * u == (p * u) * k);
    }
    assert(z * k == ((x * k) * n) * u + (x * e2) * k) by (nonlinear_arith)
        requires
            z == x * y,
            y == n * u + e2,
    {
        assert(z == x * (n * u) + x * e2);
        assert((x * (n * u)) * k == ((x * k) * n) * u);
    }
    let o = x * k;
    assert((o * n) * u == (exact * n) * u + (e3 * n) * u) by (nonlinear_arith)
        requires
            o == exact + e3,
    {
        assert(o * n == exact * n + e3 * n);
    }
    let v = (b * k) * u;
    assert(-((0x4_0000 * err) * v) <= (e3 * n) * u <= (0x4_0000 * err) * v) by (nonlinear_arith)
        requires
            -((err * b) * k) <= e3 <= (err * b) * k,
            0 <= n <= 0x4_0000,
            v == (b * k) * u,
            err >= 0,
            b > 0,
            k > 0,
            u > 0,
    {
        let z = (err * b) * k;
        assert(z >= 0);
        assert(-(z * 0x4_0000) <= e3 * n <= z * 0x4_0000);
        assert((z * 0x4_0000) * u == (0x4_0000 * err) * v);
        assert(-((z * 0x4_0000) * u) <= (e3 * n) * u <= (z * 0x4_0000) * u);
    }
    let t = if e == 31 {
        0x8000_0000int
    } else {
        0x1_0000_0000int
    };
    assert(-((8 * t) * v) <= (x * e2) * k <= (8 * t) * v) by (nonlinear_arith)
        requires
            -(t * u) <= x <= t * u,
            -(8 * b) <= e2 <= 8 * b,
            v == (b * k) * u,
            t > 0,
            b > 0,
            k > 0,
            u > 0,
    {
        assert(-((t * u) * (8 * b)) <= x * e2 <= (t * u) * (8 * b));
        assert(((t * u) * (8 * b)) * k == (8 * t) * v);
    }
    assert(blur(j) <= (8 * t) * b) by {
        if e == 31 {
            assert(8 * t == 0x4_0000_0000);
        } else {
            assert(8 * t == 0x8_0000_0000);
        }
    }
    assert(-((8 * t) * v) <= e1 * k <= (8 * t) * v) by (nonlinear_arith)
        requires
            -(blur(j) * u) <= e1 <= blur(j) * u,
            blur(j) <= (8 * t) * b,
            v == (b * k) * u,
            k > 0,
            u > 0,
    {
        assert(blur(j) * u <= ((8 * t) * b) * u);
        assert((((8 * t) * b) * u) * k == (8 * t) * v);
    }
    let g = p * k - exact * n;
    let c = 0x4_0000 * err + 16 * t;
    assert(-((c * b) * k) <= g <= (c * b) * k) by (nonlinear_arith)
        requires
            (p * k) * u == (exact * n) * u + (e3 * n) * u + (x * e2) * k + e1 * k,
            -((0x4_0000 * err) * v) <= (e3 * n) * u <= (0x4_0000 * err) * v,
            -((8 * t) * v) <= (x * e2) * k <= (8 * t) * v,
            -((8 * t) * v) <= e1 * k <= (8 * t) * v,
            g == p * k - exact * n,
            c == 0x4_0000 * err + 16 * t,
            v == (b * k) * u,
            u > 0,
    {
        assert(g * u == (p * k) * u - (exact * n) * u);
        assert(-(c * v) <= g * u <= c * v);
        assert(c * v == ((c * b) * k) * u);
    }
    assert(c * b <= 163_208_757_248 * b) by (nonlinear_arith)
        requires
            c <= 163_208_757_248,
            b >= 0,
    ;
    assert((c * b) * k <= u * k) by (nonlinear_arith)
        requires
            c * b <= u,
            k > 0,
    ;
    if e == 31 && err <= 0x3_4000 {
        assert(2 * (c * b) <= 180_388_626_432 * b) by (nonlinear_arith)
            requires
                2 * c <= 180_388_626_432,
                b >= 0,
        ;
        assert(2 * ((c * b) * k) <= u * k) by (nonlinear_arith)
            requires
                2 * (c * b) <= u,
                k > 0,
        ;
    }
}

proof fn lemma_more_sizes()
    ensures
        power(32) == 0x1_0000_0000 * unit(),
        power(49) == 0x4_0000 * power(31),
        power(50) == 0x4_0000 * power(32),
        blur(18) <= 8 * blur(15),
        blur(32) <= 0x2_0000 * blur(15),
        blur(49) <= 0x4_0000_0000 * blur(15),
        blur(50) <= 0x8_0000_0000 * blur(15),
        180_388_626_432 * blur(15) <= unit(),
        163_208_757_248 * blur(15) <= unit(),
{
    lemma_sizes();
    lemma2_to64();
    lemma2_to64_rest();
    instants::lemma_powers(32);
    instants::lemma_powers(50);
    lemma_pow2_adds(17, 1036);
    lemma_pow2_adds(35, 1036);
}

/// A column shows the audio of its own stretch of the video: it starts, in frames,
/// where its place between the ends of what is visible says, shifted and times the
/// rate, to within half a frame; and it ends one frame or less from where the next
/// column starts.
pub proof fn law_column_shows_its_stretch(lane: Lane, px: nat, sample_rate: u32)
    requires
        is_ordinary(lane),
        px * unit() <= fine_units(lane.width),
        sample_rate <= 0x4_0000,
    ensures
        ({
            let (first, last) = lane.column_frames(px, sample_rate);
            let w = fine_units(lane.width);
            let (l, r) = (fine_units(lane.visible_left), fine_units(lane.visible_right));
            let d = fine_units(lane.duration_ms);
            let k = 1000 * (w * unit());
            let shift = fine_units(lane.offset_seconds) * k;
            let from = (l * w + (px * unit()) * (r - l)) * d + shift;
            let to = (l * w + (px * unit()) * (r - l)) * d + (unit() * (r - l)) * d + shift;
            &&& close(2 * (fine_units(first) * k), 2 * (from * sample_rate), unit() * k)
            &&& close(fine_units(last) * k, to * sample_rate, unit() * k)
        }),
{
    let (u, b) = (unit(), blur(15));
    lemma_sizes();
    lemma_more_sizes();
    lemma_start(lane, px);
    lemma_step(lane);
    let start = lane.column_start(px);
    let step = lane.seconds_per_pixel();
    let w = fine_units(lane.width);
    let (l, r) = (fine_units(lane.visible_left), fine_units(lane.visible_right));
    let d = fine_units(lane.duration_ms);
    let k = 1000 * (w * u);
    assert(k > 0) by (nonlinear_arith)
        requires
            k == 1000 * (w * u),
            w >= u,
            u > 0,
    ;
    let shift = fine_units(lane.offset_seconds) * k;
    let from = (l * w + (px * u) * (r - l)) * d + shift;
    lemma_in_frames(start, 31, from, k, 0x3_4000, sample_rate);
    instants::lemma_plus(start, step, 32);
    let end = start.plus(step);
    let (x, s, y) = (fine_units(start), fine_units(step), fine_units(end));
    let more = (u * (r - l)) * d;
    let n = b * k;
    assert(close(s * k, more, 8 * n)) by (nonlinear_arith)
        requires
            close(1000 * (s * w), (r - l) * d, 8000 * (b * w)),
            k == 1000 * (w * u),
            n == b * k,
            more == (u * (r - l)) * d,
            u > 0,
    {
        let e = 1000 * (s * w) - (r - l) * d;
        assert(-((8000 * (b * w)) * u) <= e * u <= (8000 * (b * w)) * u);
        assert((8000 * (b * w)) * u == 8 * n);
        assert(s * k == (1000 * (s * w)) * u);
        assert(((r - l) * d) * u == more);
    }
    assert(close(y * k, x * k + s * k, 0x2_0000 * n)) by (nonlinear_arith)
        requires
            close(y, x + s, 0x2_0000 * b),
            n == b * k,
            k > 0,
    ;
    assert((0x3_4000 * b) * k == 0x3_4000 * n && (0x5_8000 * b) * k == 0x5_8000 * n) by (nonlinear_arith)
        requires
            n == b * k,
    ;
    let to = (l * w + (px * u) * (r - l)) * d + more + shift;
    lemma_in_frames(end, 32, to, k, 0x5_8000, sample_rate);
}

} // verus!
