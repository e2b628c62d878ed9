//! Sampling is linear interpolation in the declared domain.
//!
//! What a table gives for a color is held against exact interpolation of its
//! entries at the exact position of the color between the ends of the domain.

use crate::color::drift::units_of;
use crate::color::lut;
use crate::color::lut::gpu;
use crate::color::lut::identity;
use crate::color::lut::identity::{amount, close, plain, slip, unity};
use crate::color::lut::interpolation;
use crate::color::lut::interpolation::{all_within, exact, ranges, stands_for, trilinear, within};
use crate::color::scale;
use crate::ieee::grid;
use crate::ieee::grid::Format;
use crate::ieee::laws;
use crate::ieee::number;
use crate::ieee::single::Single;
use vstd::arithmetic::div_mod::*;
use vstd::arithmetic::power2::*;
use vstd::prelude::*;

verus! {

/// The domain runs from 0 to 1 on every channel.
pub open spec fn on_unit_domain(t: lut::Table) -> bool {
    &&& t.domain_min == [Single::zero(), Single::zero(), Single::zero()]
    &&& t.domain_max == [Single::one(), Single::one(), Single::one()]
}

/// A rounded sum of units, none below zero.
proof fn lemma_rounded(t: int, z: Single) -> (k: nat)
    requires
        t >= 0,
        t > 0 ==> z.number() == number::rounded_units(Format::Single, t),
        t == 0 ==> z.number().index == 0,
    ensures
        k == grid::round_magnitude(Format::Single, t as nat, 1),
        z.number().index == k,
        k < Format::Single.infinity() ==> close(
            amount(z) * 0x100_0000,
            t * 0x100_0000,
            amount(z) + 0x80_0000,
        ),
{
    let f = Format::Single;
    let n = t as nat;
    let k = grid::round_magnitude(f, n, 1);
    laws::law_nearest_exists(f, n, 1);
    number::lemma_round_zero(f, 1);
    if k < f.infinity() {
        scale::lemma_relative(n, 1, k);
        let u = grid::units(f, k);
        assert(u * 1 * 0x100_0000 == u * 0x100_0000 && (u + 0x80_0000) * 1 == u + 0x80_0000);
    }
    k
}

/// The difference of two values, the first no less.
proof fn lemma_difference(x: Single, y: Single)
    requires
        laws::is_finite(x),
        laws::is_finite(y),
        y.at_most(x),
        laws::is_finite(x.minus(y)),
    ensures
        units_of(y) <= units_of(x),
        plain(x.minus(y)),
        x.minus(y).number().index == grid::round_magnitude(
            Format::Single,
            (units_of(x) - units_of(y)) as nat,
            1,
        ),
        close(
            amount(x.minus(y)) * 0x100_0000,
            (units_of(x) - units_of(y)) * 0x100_0000,
            amount(x.minus(y)) + 0x80_0000,
        ),
{
    crate::color::drift::lemma_order(y, x);
    reveal(units_of);
    let f = Format::Single;
    let t = units_of(x) - units_of(y);
    let (a, b) = (x.number(), number::negated(y.number()));
    assert(grid::units(f, 0) == 0);
    number::lemma_round_zero(f, 1);
    assert(number::signed_units(f, b) == -units_of(y));
    laws::law_nearest_exists(f, t as nat, 1);
    let z = x.minus(y);
    let k = lemma_rounded(t, z);
    if t == 0 {
        assert(k == 0);
    }
}

/// A channel of the domain lies where it stands between the ends: its position,
/// from 0 to 1, is the exact ratio of its distance from the lower end to the
/// length of the domain, to within a few times 2^-24.
pub proof fn law_position_is_proportional(v: Single, min: Single, max: Single)
    requires
        lut::domain::is_spread(min, max),
        laws::is_finite(v),
        min.at_most(v),
        v.at_most(max),
    ensures
        ({
            let p = lut::placed(v, min, max);
            let length = units_of(max) - units_of(min);
            &&& plain(p)
            &&& amount(p) <= unity()
            &&& length > 0
            &&& 0 <= units_of(v) - units_of(min) <= length
            &&& close(
                amount(p) * length,
                (units_of(v) - units_of(min)) * unity(),
                (4 * slip()) * length,
            )
        }),
{
    let f = Format::Single;
    let one = unity();
    let s = slip();
    identity::lemma_sizes();
    lemma_pow2_pos(149);
    let (span, part) = (max.minus(min), v.minus(min));
    laws::law_minus_keeps_order(min, max, min);
    laws::law_minus_keeps_order(v, max, min);
    laws::law_minus_keeps_order(min, v, min);
    laws::law_minus_itself(min);
    assert(laws::is_finite(part));
    lemma_difference(max, min);
    lemma_difference(v, min);
    crate::color::drift::lemma_order(min, max);
    crate::color::drift::lemma_order(v, max);
    crate::color::drift::lemma_order(min, v);
    let (den, num) = (units_of(max) - units_of(min), units_of(v) - units_of(min));
    let (us, ua) = (amount(span), amount(part));
    // The span is no less than the gap above one.
    let tiny = 0x3400_0000nat;
    let k = span.number().index as nat;
    assert(grid::units(f, tiny) == pow2(126)) by {
        lemma2_to64();
        lemma_pow2_adds(23, 103);
        assert(0x3400_0000nat / 0x80_0000nat == 104 && 0x3400_0000nat % 0x80_0000nat == 0);
    }
    assert(span.magnitude().number().index == k);
    grid::lemma_units_increase(f, tiny, k);
    assert(us >= 2 * s);
    assert(s >= 0x80_0000 * 0x100_0000) by {
        lemma2_to64();
        lemma_pow2_strictly_increases(64, 125);
    }
    // The part is no more than the span.
    laws::law_rounding_keeps_order(f, num as nat, 1, den as nat, 1);
    grid::lemma_units_increase(f, part.number().index as nat, k);
    assert(ua <= us);
    // Their ratio.
    let n = (ua * one) as nat;
    assert(ua * one >= 0) by (nonlinear_arith)
        requires
            ua >= 0,
            one > 0,
    ;
    laws::law_nearest_exists(f, n, us as nat);
    laws::law_rounding_keeps_values(f, 0x3f80_0000, us as nat);
    assert(n * us <= (one * us) * us) by (nonlinear_arith)
        requires
            n == ua * one,
            ua <= us,
            one > 0,
    ;
    laws::law_rounding_keeps_order(f, n, us as nat, (one * us) as nat, us as nat);
    let j = grid::round_magnitude(f, n, us as nat);
    grid::lemma_units_increase(f, j, 0x3f80_0000);
    let ratio = part.over(span);
    assert(span.number().index != 0);
    if part.number().index == 0 {
        assert(ua == 0);
        assert(0 * one == 0);
        number::lemma_round_zero(f, us as nat);
        laws::law_zero_over(part, span);
    }
    assert(ratio.number().index == j);
    let p = lut::placed(v, min, max);
    assert(plain(ratio));
    assert(amount(p) == amount(ratio));
    scale::lemma_relative(n, us as nat, j);
    let up = grid::units(f, j) as int;
    lemma_position_error(up, us, ua, den, num, one, s);
}

proof fn lemma_position_error(up: int, us: int, ua: int, den: int, num: int, one: int, s: int)
    requires
        close(up * us * 0x100_0000, (ua * one) * 0x100_0000, (up + 0x80_0000) * us),
        close(us * 0x100_0000, den * 0x100_0000, us + 0x80_0000),
        close(ua * 0x100_0000, num * 0x100_0000, ua + 0x80_0000),
        0 <= up <= one,
        0 <= ua <= us,
        one == 0x100_0000 * s,
        s >= 0x80_0000 * 0x100_0000,
        us >= 2 * s,
        den >= 0,
    ensures
        close(up * den, num * one, (4 * s) * den),
{
    let (x, y, z) = (up * us - ua * one, den - us, ua - num);
    assert(up * den - num * one == x + up * y + one * z) by (nonlinear_arith)
        requires
            x == up * us - ua * one,
            y == den - us,
            z == ua - num,
    ;
    let m = one * us;
    assert((up + 0x80_0000) * us <= m + 0x80_0000 * us) by (nonlinear_arith)
        requires
            up <= one,
            us >= 0,
            m == one * us,
    ;
    assert(up * us * 0x100_0000 == (up * us) * 0x100_0000);
    assert(-(m + 0x80_0000 * us) <= x * 0x100_0000 <= m + 0x80_0000 * us);
    let w = us + 0x80_0000;
    assert(-(one * w) <= (up * y) * 0x100_0000 <= one * w) by (nonlinear_arith)
        requires
            -w <= y * 0x100_0000 <= w,
            0 <= up <= one,
    {
        let v = y * 0x100_0000;
        assert(-(up * w) <= up * v <= up * w);
        assert(up * w <= one * w);
        assert(up * v == (up * y) * 0x100_0000);
    }
    assert(-(one * w) <= (one * z) * 0x100_0000 <= one * w) by (nonlinear_arith)
        requires
            -w <= z * 0x100_0000 <= w,
            one > 0,
    {
        let v = z * 0x100_0000;
        assert(-(one * w) <= one * v <= one * w);
        assert(one * v == (one * z) * 0x100_0000);
    }
    assert(one * w == m + 0x80_0000 * one) by (nonlinear_arith)
        requires
            w == us + 0x80_0000,
            m == one * us,
    ;
    // Half a unit is next to nothing.
    assert(0x80_0000 * us <= s * us && 0x100_0000 * one <= s * us) by (nonlinear_arith)
        requires
            s >= 0x80_0000 * 0x100_0000,
            us >= 2 * s,
            one == 0x100_0000 * s,
    ;
    let q = s * us;
    assert(m == 0x100_0000 * q) by (nonlinear_arith)
        requires
            m == one * us,
            one == 0x100_0000 * s,
            q == s * us,
    ;
    let e = up * den - num * one;
    assert(-(3 * m + 2 * q) <= e * 0x100_0000 <= 3 * m + 2 * q);
    // The span is hardly longer than the domain.
    assert(us * 0x100_0000 <= den * 0x100_0000 + us + 0x80_0000);
    assert(7 * us <= 8 * den);
    assert(7 * q <= 8 * (s * den)) by (nonlinear_arith)
        requires
            7 * us <= 8 * den,
            q == s * us,
            s > 0,
    ;
    assert((4 * s) * den == 4 * (s * den)) by (nonlinear_arith);
}

/// The entries of a table on one channel, as amounts in the order of the file.
pub open spec fn listed(t: lut::Table, ch: int) -> spec_fn(int) -> int {
    |i: int| amount(t.data[i][ch])
}

/// The entries of a cube on one channel, by their indices: red varies fastest,
/// then green, then blue.
pub open spec fn stacked(t: lut::Table, ch: int) -> spec_fn(int, int, int) -> int {
    |r: int, g: int, b: int| amount(t.data[r + g * t.size + b * (t.size * t.size)][ch])
}

/// Where a channel of a color lies among the entries `0..=last`, in units: its
/// exact position between the ends of the domain.
pub open spec fn standing(v: Single, min: Single, max: Single, last: int) -> int {
    ((units_of(v) - units_of(min)) * last * unity()) / (units_of(max) - units_of(min))
}

proof fn lemma_listed(t: lut::Table, ch: int)
    requires
        t.complete(),
        !t.cube,
        ranges(t, ch, Single::zero(), Single::one()),
    ensures
        within(listed(t, ch), (t.size - 1) as nat, unity() * 1),
{
    assert forall|i: int| 0 <= i <= t.size - 1 implies 0 <= #[trigger] listed(t, ch)(i) <= unity() * 1 by {
        interpolation::lemma_amount(t.data[i][ch], Single::zero(), Single::one());
        identity::lemma_sizes();
    }
}

/// A position from 0 to 1, counted in entries `0..=last`, for any number of them.
proof fn lemma_scaled_far(p: Single, last: nat) -> (v: Single)
    requires
        plain(p),
        amount(p) <= unity(),
        1 <= last < 0x1_0000,
    ensures
        v == p.times(Single::from_u64(last as u64)),
        plain(v),
        laws::is_finite(v),
        close(amount(v), amount(p) * last, (last + 1) * slip()),
        0 <= amount(v) <= last * unity(),
{
    let f = Format::Single;
    let (one, s) = (unity(), slip());
    let edge = Single::from_u64(last as u64);
    identity::lemma_sizes();
    lemma_pow2_pos(149);
    laws::law_small_integers_are_exact(last as u64);
    identity::lemma_finite(p);
    let v = p.times(edge);
    let (a, top) = (amount(p), last * one);
    let n = (a * top) as nat;
    let e = edge.number().index as nat;
    assert(0 <= a * top <= top * one) by (nonlinear_arith)
        requires
            0 <= a <= one,
            top >= 0,
    ;
    assert(top >= 0) by (nonlinear_arith)
        requires
            top == last * one,
            last >= 1,
            one > 0,
    ;
    laws::law_nearest_exists(f, n, one as nat);
    laws::law_rounding_keeps_values(f, e, one as nat);
    assert(n * one <= (top * one) * one) by (nonlinear_arith)
        requires
            n <= top * one,
            one > 0,
    ;
    laws::law_rounding_keeps_order(f, n, one as nat, (top * one) as nat, one as nat);
    let k = grid::round_magnitude(f, n, one as nat);
    assert(v.number().index == k);
    grid::lemma_units_increase(f, k, e);
    if p.number().index == 0 {
        laws::law_times_zero(edge, p);
    }
    scale::lemma_relative(n, one as nat, k);
    let u = amount(v);
    assert(close(u, a * last, (last + 1) * s)) by {
        let w = a * last;
        assert(n == w * one) by (nonlinear_arith)
            requires
                n == a * top,
                top == last * one,
                w == a * last,
        ;
        assert(u * one * 0x100_0000 == (u * 0x100_0000) * one) by (nonlinear_arith);
        assert((w * one) * 0x100_0000 == (w * 0x100_0000) * one) by (nonlinear_arith);
        assert(close(u * 0x100_0000, w * 0x100_0000, u + 0x80_0000)) by (nonlinear_arith)
            requires
                close((u * 0x100_0000) * one, (w * 0x100_0000) * one, (u + 0x80_0000) * one),
                one > 0,
        ;
        assert(u <= (last * s) * 0x100_0000) by (nonlinear_arith)
            requires
                u <= last * one,
                one == 0x100_0000 * s,
        ;
        assert((last + 1) * s == last * s + s) by (nonlinear_arith);
    }
    v
}

/// A curve at a position is exact interpolation of its entries there, to within
/// `c + 6` slips where the position is found to within `c`.
proof fn lemma_curve(t: lut::Table, p: Single, ch: int) -> (c: int)
    requires
        t.complete(),
        !t.cube,
        2 <= t.size <= 0x1_0000,
        0 <= ch < 3,
        ranges(t, ch, Single::zero(), Single::one()),
        plain(p),
        amount(p) <= unity(),
    ensures
        c == if t.size <= 257 {
            128
        } else {
            t.size as int
        },
        plain(t.curve_at(p, ch)),
        close(
            amount(t.curve_at(p, ch)) * unity(),
            exact(listed(t, ch), amount(p) * (t.size - 1)),
            ((c + 6) * slip()) * unity(),
        ),
{
    let last = (t.size - 1) as nat;
    identity::lemma_sizes();
    lut::domain::lemma_last_entry(t.size);
    lemma_listed(t, ch);
    let c = if t.size <= 257 {
        128int
    } else {
        t.size as int
    };
    let v = if t.size <= 257 {
        interpolation::lemma_scaled(p, last)
    } else {
        lemma_scaled_far(p, last)
    };
    let x = lut::between(v, last);
    let (lo, hi) = (t.data[x.low as int][ch], t.data[x.high as int][ch]);
    interpolation::lemma_amount(lo, Single::zero(), Single::one());
    interpolation::lemma_amount(hi, Single::zero(), Single::one());
    let a = listed(t, ch);
    assert(amount(lo) * 1 == a(x.low as int) && amount(hi) * 1 == a(x.high as int));
    let r = interpolation::lemma_axis_at(a, 1, last, p, v, c, lo, hi, 0, 0);
    assert(t.curve_at(p, ch) == lut::mixed(lo, hi, r.past));
    assert(unity() * 1 == unity());
    assert(0 + (c + 6) * slip() == (c + 6) * slip());
    c
}

/// On the domain from 0 to 1 a channel is its own position.
proof fn lemma_own_position(v: Single)
    requires
        Single::zero().at_most(v),
        v.at_most(Single::one()),
    ensures
        plain(lut::placed(v, Single::zero(), Single::one())),
        amount(lut::placed(v, Single::zero(), Single::one())) == amount(v),
        0 <= amount(v) <= unity(),
{
    identity::lemma_placed(v);
}

/// A curve is linear between its entries: a color from 0 to 1 that stands between
/// the `i`-th entry and the next gets the exact mix of the two, by how far it is
/// from either, to within a hundred-thousandth.
pub proof fn law_curve_is_linear_between_entries(t: lut::Table, rgb: [Single; 3], ch: int, i: int)
    requires
        t.complete(),
        !t.cube,
        2 <= t.size <= 257,
        on_unit_domain(t),
        0 <= ch < 3,
        ranges(t, ch, Single::zero(), Single::one()),
        Single::zero().at_most(rgb[ch]),
        rgb[ch].at_most(Single::one()),
        0 <= i,
        i + 1 < t.size,
        i * unity() <= amount(rgb[ch]) * (t.size - 1) <= (i + 1) * unity(),
    ensures
        ({
            let got = amount(t.sampled(rgb)[ch]);
            let (low, high) = (amount(t.data[i][ch]), amount(t.data[i + 1][ch]));
            let past = amount(rgb[ch]) * (t.size - 1) - i * unity();
            let off = got * unity() - (low * (unity() - past) + high * past);
            &&& plain(t.sampled(rgb)[ch])
            &&& -(unity() * unity()) < 100_000 * off < unity() * unity()
        }),
{
    let (one, s) = (unity(), slip());
    identity::lemma_sizes();
    lemma_own_position(rgb[ch]);
    let p = t.normalized(rgb)[ch];
    let c = lemma_curve(t, p, ch);
    assert(t.sampled(rgb)[ch] == t.curve_at(p, ch));
    let a = listed(t, ch);
    let y = amount(rgb[ch]) * (t.size - 1);
    let past = y - i * one;
    lemma_exact_in(a, y, i);
    assert(100_000 * ((134 * s) * one) < one * one) by (nonlinear_arith)
        requires
            one == 0x100_0000 * s,
            s > 0,
    ;
}

/// Exact interpolation between two neighbours.
proof fn lemma_exact_in(a: spec_fn(int) -> int, y: int, i: int)
    requires
        0 <= i,
        i * unity() <= y <= (i + 1) * unity(),
    ensures
        exact(a, y) == a(i) * (unity() - (y - i * unity())) + a(i + 1) * (y - i * unity()),
{
    let one = unity();
    identity::lemma_sizes();
    let f = y - i * one;
    assert((i + 1) * one == i * one + one && one * i == i * one && one * (i + 1) == (i + 1) * one)
        by (nonlinear_arith);
    if f < one {
        lemma_fundamental_div_mod_converse(y, one, i, f);
    } else {
        lemma_fundamental_div_mod_converse(y, one, i + 1, 0);
        let (u, v, w) = (a(i), a(i + 1), a(i + 2));
        assert(v * (one - 0) + w * 0 == u * (one - one) + v * one) by (nonlinear_arith);
    }
}

/// The same for curves of any length up to 65536: the error grows with the number
/// of entries alone.
pub proof fn law_long_curves_are_linear(t: lut::Table, rgb: [Single; 3], ch: int)
    requires
        t.complete(),
        !t.cube,
        2 <= t.size <= 0x1_0000,
        on_unit_domain(t),
        0 <= ch < 3,
        ranges(t, ch, Single::zero(), Single::one()),
        Single::zero().at_most(rgb[ch]),
        rgb[ch].at_most(Single::one()),
    ensures
        plain(t.sampled(rgb)[ch]),
        close(
            amount(t.sampled(rgb)[ch]) * unity(),
            exact(listed(t, ch), amount(rgb[ch]) * (t.size - 1)),
            ((t.size + 134) * slip()) * unity(),
        ),
{
    identity::lemma_sizes();
    lemma_own_position(rgb[ch]);
    let p = t.normalized(rgb)[ch];
    let c = lemma_curve(t, p, ch);
    assert(t.sampled(rgb)[ch] == t.curve_at(p, ch));
    let (s, one, m) = (slip(), unity(), t.size + 134);
    assert(((c + 6) * s) * one <= (m * s) * one) by (nonlinear_arith)
        requires
            c + 6 <= m,
            s > 0,
            one > 0,
    ;
}

/// The `i`-th of the levels of a table, to within one slip.
proof fn lemma_level(i: nat, last: nat)
    requires
        1 <= last <= 256,
        i <= last,
    ensures
        ({
            let l = gpu::level(i, last + 1);
            &&& plain(l)
            &&& amount(l) <= unity()
            &&& close(amount(l) * last, i * unity(), last * slip())
        }),
{
    let f = Format::Single;
    let (one, s) = (unity(), slip());
    identity::lemma_sizes();
    lemma_pow2_pos(149);
    laws::law_small_integers_are_exact(i as u64);
    laws::law_small_integers_are_exact(last as u64);
    let (x, y) = (Single::from_u64(i as u64), Single::from_u64(last as u64));
    let n = ((i * one) * one) as nat;
    let d = (last * one) as nat;
    assert((i * one) * one >= 0 && d > 0 && n <= one * d && one * d <= 2 * one * d) by (nonlinear_arith)
        requires
            0 <= i <= last,
            last >= 1,
            one > 0,
            n == (i * one) * one,
            d == last * one,
    ;
    identity::lemma_round_error(n, d);
    laws::law_nearest_exists(f, n, d);
    laws::law_rounding_keeps_values(f, 0x3f80_0000, d);
    assert(n * d <= (one * d) * d) by (nonlinear_arith)
        requires
            n <= one * d,
    ;
    laws::law_rounding_keeps_order(f, n, d, (one * d) as nat, d);
    let k = grid::round_magnitude(f, n, d);
    grid::lemma_units_increase(f, k, 0x3f80_0000);
    assert(y.number().index != 0) by {
        if y.number().index == 0 {
            assert(grid::units(f, 0) == 0);
        }
    }
    let l = gpu::level(i, last + 1);
    if x.number().index == 0 {
        laws::law_zero_over(x, y);
        assert(i == 0) by (nonlinear_arith)
            requires
                i * one == 0,
                one > 0,
                i >= 0,
        ;
        assert(0 * one == 0);
        number::lemma_round_zero(f, d);
    }
    assert(l.number().index == k);
    let u = amount(l);
    assert(close(u * last, i * one, last * s)) by (nonlinear_arith)
        requires
            close(u * d, n as int, s * d),
            n == (i * one) * one,
            d == last * one,
            one > 0,
    {
        assert(u * d == (u * last) * one);
        assert(s * d == (last * s) * one);
    }
}

/// A curve whose entries are its own levels gives every color from 0 to 1 back,
/// each channel to within a hundred-thousandth.
pub proof fn law_identity_curve_is_identity(t: lut::Table, rgb: [Single; 3], ch: int)
    requires
        t.complete(),
        !t.cube,
        2 <= t.size <= 257,
        on_unit_domain(t),
        0 <= ch < 3,
        forall|i: int|
            0 <= i < t.data.len() ==> #[trigger] t.data[i][ch] == gpu::level(
                (if i < t.size { i } else { 0 }) as nat,
                t.size,
            ),
        Single::zero().at_most(rgb[ch]),
        rgb[ch].at_most(Single::one()),
    ensures
        plain(t.sampled(rgb)[ch]),
        -unity() < 100_000 * (amount(t.sampled(rgb)[ch]) - amount(rgb[ch])) < unity(),
{
    let (one, s) = (unity(), slip());
    let last = t.size - 1;
    identity::lemma_sizes();
    assert(ranges(t, ch, Single::zero(), Single::one())) by {
        assert forall|i: int| 0 <= i < t.data.len() implies Single::zero().at_most(
            #[trigger] t.data[i][ch],
        ) && t.data[i][ch].at_most(Single::one()) by {
            let k = (if i < t.size { i } else { 0 }) as nat;
            lemma_level(k, last as nat);
            lemma_below_one(gpu::level(k, t.size));
        }
    }
    lemma_own_position(rgb[ch]);
    let p = t.normalized(rgb)[ch];
    let c = lemma_curve(t, p, ch);
    let got = amount(t.sampled(rgb)[ch]);
    assert(t.sampled(rgb)[ch] == t.curve_at(p, ch));
    let a = listed(t, ch);
    let v = amount(rgb[ch]);
    let y = v * last;
    // Where the color stands.
    lemma_fundamental_div_mod(y, one);
    lemma_mod_bound(y, one);
    let (i, f) = (y / one, y % one);
    assert(0 <= i <= last && (i == last ==> f == 0)) by (nonlinear_arith)
        requires
            y == one * i + f,
            0 <= f < one,
            y == v * last,
            0 <= v <= one,
            one > 0,
            last >= 1,
    ;
    lemma_level(i as nat, last as nat);
    if i < last {
        lemma_level((i + 1) as nat, last as nat);
    }
    let (x, z) = (a(i), a(i + 1));
    let e = exact(a, y);
    assert(close(e * last, y * one, (last * s) * one)) by {
        if i < last {
            assert(close(
                (x * (one - f) + z * f) * last,
                (i * one) * (one - f) + ((i + 1) * one) * f,
                (last * s) * one,
            )) by (nonlinear_arith)
                requires
                    close(x * last, i * one, last * s),
                    close(z * last, (i + 1) * one, last * s),
                    0 <= f <= one,
            {
                let m = last * s;
                assert((x * (one - f) + z * f) * last == (x * last) * (one - f) + (z * last) * f);
                assert((i * one - m) * (one - f) <= (x * last) * (one - f) <= (i * one + m) * (one - f));
                assert(((i + 1) * one - m) * f <= (z * last) * f <= ((i + 1) * one + m) * f);
            }
            assert((i * one) * (one - f) + ((i + 1) * one) * f == (one * i + f) * one) by (nonlinear_arith);
        } else {
            assert(e == x * one) by (nonlinear_arith)
                requires
                    e == x * (one - f) + z * f,
                    f == 0,
            ;
            assert(close((x * one) * last, (i * one) * one, (last * s) * one)) by (nonlinear_arith)
                requires
                    close(x * last, i * one, last * s),
                    one > 0,
            {
                assert((x * one) * last == (x * last) * one);
            }
            assert(y == i * one) by (nonlinear_arith)
                requires
                    y == one * i + f,
                    f == 0,
            ;
        }
    }
    assert(close(e, v * one, s * one)) by (nonlinear_arith)
        requires
            close(e * last, (v * last) * one, (last * s) * one),
            last >= 1,
    {
        assert((v * last) * one == (v * one) * last);
        assert((last * s) * one == (s * one) * last);
    }
    assert(close(got, v, 135 * s)) by (nonlinear_arith)
        requires
            close(got * one, e, (134 * s) * one),
            close(e, v * one, s * one),
            one > 0,
    ;
}

proof fn lemma_below_one(x: Single)
    requires
        plain(x),
        amount(x) <= unity(),
    ensures
        Single::zero().at_most(x),
        x.at_most(Single::one()),
{
    identity::lemma_sizes();
    identity::lemma_finite(x);
    let k = x.number().index as nat;
    if k > 0x3f80_0000 {
        grid::lemma_units_increase(Format::Single, 0x3f80_0000, k);
    }
}

/// The exact position of a channel, against the one that is used.
proof fn lemma_standing(v: Single, min: Single, max: Single, last: nat)
    requires
        lut::domain::is_spread(min, max),
        laws::is_finite(v),
        min.at_most(v),
        v.at_most(max),
        1 <= last <= 256,
    ensures
        ({
            let p = lut::placed(v, min, max);
            let y = standing(v, min, max, last as int);
            &&& plain(p)
            &&& amount(p) <= unity()
            &&& 0 <= y <= last * unity()
            &&& 0 <= amount(p) * last <= last * unity()
            &&& close(amount(p) * last, y, 1025 * slip())
        }),
{
    let (one, s) = (unity(), slip());
    identity::lemma_sizes();
    law_position_is_proportional(v, min, max);
    let p = amount(lut::placed(v, min, max));
    let (num, den) = (units_of(v) - units_of(min), units_of(max) - units_of(min));
    let n = num * last * one;
    let y = n / den;
    lemma_fundamental_div_mod(n, den);
    lemma_mod_bound(n, den);
    let rest = n % den;
    assert(0 <= n <= (last * one) * den) by (nonlinear_arith)
        requires
            n == num * last * one,
            0 <= num <= den,
            last >= 1,
            one > 0,
    ;
    assert(0 <= y <= last * one) by (nonlinear_arith)
        requires
            n == den * y + rest,
            0 <= rest < den,
            0 <= n <= (last * one) * den,
            den > 0,
    ;
    assert(0 <= p * last <= last * one) by (nonlinear_arith)
        requires
            0 <= p <= one,
            last >= 1,
    ;
    assert(close(p * last, y, 1025 * s)) by {
        let x = p * last;
        assert(close(x * den, n, (1024 * s) * den)) by (nonlinear_arith)
            requires
                close(p * den, num * one, (4 * s) * den),
                x == p * last,
                n == num * last * one,
                1 <= last <= 256,
                s > 0,
                den > 0,
        {
            assert(x * den == (p * den) * last);
            assert(n == (num * one) * last);
            assert(((4 * s) * den) * last <= ((4 * s) * den) * 256);
        }
        assert(x - y <= 1024 * s + 1) by (nonlinear_arith)
            requires
                x * den <= n + (1024 * s) * den,
                n == den * y + rest,
                rest < den,
                den > 0,
        ;
        assert(y - x <= 1024 * s) by (nonlinear_arith)
            requires
                x * den >= n - (1024 * s) * den,
                n == den * y + rest,
                rest >= 0,
                den > 0,
        ;
    }
}

/// A curve is linear in its declared domain: a color of the domain gets the exact
/// interpolation of the entries at its place between the ends, to within a
/// ten-thousandth.
pub proof fn law_curve_is_linear_in_its_domain(t: lut::Table, rgb: [Single; 3], ch: int)
    requires
        t.complete(),
        !t.cube,
        2 <= t.size <= 257,
        lut::domain::has_spread(t),
        0 <= ch < 3,
        ranges(t, ch, Single::zero(), Single::one()),
        laws::is_finite(rgb[ch]),
        t.domain_min[ch].at_most(rgb[ch]),
        rgb[ch].at_most(t.domain_max[ch]),
    ensures
        ({
            let y = standing(rgb[ch], t.domain_min[ch], t.domain_max[ch], t.size - 1);
            let off = amount(t.sampled(rgb)[ch]) * unity() - exact(listed(t, ch), y);
            &&& plain(t.sampled(rgb)[ch])
            &&& -(unity() * unity()) < 10_000 * off < unity() * unity()
        }),
{
    let (one, s) = (unity(), slip());
    let last = (t.size - 1) as nat;
    identity::lemma_sizes();
    let (min, max) = (t.domain_min[ch], t.domain_max[ch]);
    lemma_standing(rgb[ch], min, max, last);
    let p = t.normalized(rgb)[ch];
    assert(p == lut::placed(rgb[ch], min, max));
    let c = lemma_curve(t, p, ch);
    assert(t.sampled(rgb)[ch] == t.curve_at(p, ch));
    lemma_listed(t, ch);
    let y = standing(rgb[ch], min, max, last as int);
    assert(unity() * 1 == unity());
    interpolation::lemma_exact_near(
        listed(t, ch),
        last,
        one,
        amount(p) * last,
        y,
        1025 * s,
    );
    assert(one * (1025 * s) == (1025 * s) * one) by (nonlinear_arith);
    assert(10_000 * ((134 * s) * one + (1025 * s) * one) < one * one) by (nonlinear_arith)
        requires
            one == 0x100_0000 * s,
            s > 0,
    ;
}

proof fn lemma_stacked(t: lut::Table, ch: int)
    requires
        t.complete(),
        t.cube,
        ranges(t, ch, Single::zero(), Single::one()),
    ensures
        stands_for(t, ch, stacked(t, ch), 1, 0, 0),
        all_within(stacked(t, ch), (t.size - 1) as nat, unity() * 1),
{
    let d = stacked(t, ch);
    identity::lemma_sizes();
    assert(stands_for(t, ch, d, 1, 0, 0)) by {
        reveal(stands_for);
        assert forall|r: nat, g: nat, b: nat| r < t.size && g < t.size && b < t.size implies ({
            let c = #[trigger] t.entry(r, g, b)[ch];
            &&& plain(c)
            &&& amount(c) <= unity() + 0
            &&& close(amount(c) * 1, d(r as int, g as int, b as int), 0int * 1)
        }) by {
            interpolation::lemma_entry_amount(t, ch, Single::zero(), Single::one(), r, g, b);
        }
    }
    assert forall|i: int, j: int, k: int|
        0 <= i <= t.size - 1 && 0 <= j <= t.size - 1 && 0 <= k <= t.size - 1 implies 0
        <= #[trigger] d(i, j, k) <= unity() * 1 by {
        interpolation::lemma_entry_amount(
            t,
            ch,
            Single::zero(),
            Single::one(),
            i as nat,
            j as nat,
            k as nat,
        );
    }
}

/// A cube at a position is the exact trilinear mix of its entries there, to within
/// three times what one axis is off.
#[verifier::rlimit(60)]
#[verifier::spinoff_prover]
proof fn lemma_cube_near(t: lut::Table, p: [Single; 3], ch: int)
    requires
        t.complete(),
        t.cube,
        2 <= t.size <= 257,
        0 <= ch < 3,
        ranges(t, ch, Single::zero(), Single::one()),
        forall|i: int| 0 <= i < 3 ==> plain(#[trigger] p[i]) && amount(p[i]) <= unity(),
    ensures
        plain(t.cube_at(p, ch)),
        close(
            amount(t.cube_at(p, ch)) * (unity() * (unity() * unity())),
            trilinear(
                stacked(t, ch),
                amount(p[0]) * (t.size - 1),
                amount(p[1]) * (t.size - 1),
                amount(p[2]) * (t.size - 1),
            ),
            (402 * slip()) * (unity() * (unity() * unity())),
        ),
{
    let (one, s) = (unity(), slip());
    identity::lemma_sizes();
    let d = stacked(t, ch);
    lemma_stacked(t, ch);
    let last = t.size - 1;
    let (a, b, c) = (amount(p[0]) * last, amount(p[1]) * last, amount(p[2]) * last);
    let got = amount(t.cube_at(p, ch));
    let wanted = trilinear(d, a, b, c);
    assert(plain(t.cube_at(p, ch)) && close(
        got * (one * (one * (one * 1))),
        wanted,
        (0 + 3 * interpolation::axis_error()) * (one * (one * (one * 1))),
    )) by {
        interpolation::lemma_cube(t, ch, d, 1, 0, 0, p);
    }
    lemma_thrice(got, wanted, one, s);
}

proof fn lemma_thrice(got: int, wanted: int, one: int, s: int)
    requires
        close(
            got * (one * (one * (one * 1))),
            wanted,
            (0 + 3 * (134 * s)) * (one * (one * (one * 1))),
        ),
    ensures
        close(got * (one * (one * one)), wanted, (402 * s) * (one * (one * one))),
{
}

/// Trilinear interpolation at two places that are near each other.
proof fn lemma_moved_little(d: spec_fn(int, int, int) -> int, last: nat, a: (int, int, int), b: (int, int, int))
    requires
        1 <= last <= 256,
        all_within(d, last, unity() * 1),
        0 <= a.0 <= last * unity(),
        0 <= a.1 <= last * unity(),
        0 <= a.2 <= last * unity(),
        0 <= b.0 <= last * unity(),
        0 <= b.1 <= last * unity(),
        0 <= b.2 <= last * unity(),
        close(a.0, b.0, 1025 * slip()),
        close(a.1, b.1, 1025 * slip()),
        close(a.2, b.2, 1025 * slip()),
    ensures
        close(
            trilinear(d, a.0, a.1, a.2),
            trilinear(d, b.0, b.1, b.2),
            (3075 * slip()) * (unity() * (unity() * unity())),
        ),
{
    let (one, s) = (unity(), slip());
    identity::lemma_sizes();
    interpolation::lemma_trilinear_near(d, last, 1, a, b, 1025 * s);
    let cubed = one * (one * one);
    assert(3 * ((1025 * s) * cubed) == (3075 * s) * cubed) by (nonlinear_arith);
}

/// A cube is trilinear in its declared domain: a color of the domain gets the
/// exact trilinear interpolation of the entries at its place between the ends on
/// each axis, to within a thousandth.
pub proof fn law_cube_is_trilinear_in_its_domain(t: lut::Table, rgb: [Single; 3], ch: int)
    requires
        t.complete(),
        t.cube,
        2 <= t.size <= 257,
        lut::domain::has_spread(t),
        0 <= ch < 3,
        ranges(t, ch, Single::zero(), Single::one()),
        forall|i: int|
            0 <= i < 3 ==> {
                &&& laws::is_finite(#[trigger] rgb[i])
                &&& t.domain_min[i].at_most(rgb[i])
                &&& rgb[i].at_most(t.domain_max[i])
            },
    ensures
        ({
            let (last, cubed) = (t.size - 1, unity() * (unity() * unity()));
            let x = standing(rgb[0], t.domain_min[0], t.domain_max[0], last);
            let y = standing(rgb[1], t.domain_min[1], t.domain_max[1], last);
            let z = standing(rgb[2], t.domain_min[2], t.domain_max[2], last);
            let off = amount(t.sampled(rgb)[ch]) * cubed - trilinear(stacked(t, ch), x, y, z);
            &&& plain(t.sampled(rgb)[ch])
            &&& -(unity() * cubed) < 1_000 * off < unity() * cubed
        }),
{
    let (one, s) = (unity(), slip());
    let last = (t.size - 1) as nat;
    identity::lemma_sizes();
    lemma_standing(rgb[0], t.domain_min[0], t.domain_max[0], last);
    lemma_standing(rgb[1], t.domain_min[1], t.domain_max[1], last);
    lemma_standing(rgb[2], t.domain_min[2], t.domain_max[2], last);
    let p = t.normalized(rgb);
    let d = stacked(t, ch);
    lemma_stacked(t, ch);
    lemma_cube_near(t, p, ch);
    assert(t.sampled(rgb)[ch] == t.cube_at(p, ch));
    let x = standing(rgb[0], t.domain_min[0], t.domain_max[0], last as int);
    let y = standing(rgb[1], t.domain_min[1], t.domain_max[1], last as int);
    let z = standing(rgb[2], t.domain_min[2], t.domain_max[2], last as int);
    lemma_moved_little(
        d,
        last,
        (amount(p[0]) * last, amount(p[1]) * last, amount(p[2]) * last),
        (x, y, z),
    );
    let cubed = one * (one * one);
    assert((3075 * s) * cubed + (402 * s) * cubed == (3477 * s) * cubed) by (nonlinear_arith);
    assert(cubed > 0) by (nonlinear_arith)
        requires
            cubed == one * (one * one),
            one > 0,
    ;
    assert(1_000 * ((3477 * s) * cubed) < one * cubed) by (nonlinear_arith)
        requires
            one == 0x100_0000 * s,
            s > 0,
            cubed > 0,
    ;
}

} // verus!
