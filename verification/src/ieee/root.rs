//! Square roots, exactly rounded.

use crate::ieee::grid;
use crate::ieee::grid::Format;
use crate::ieee::number;
use crate::ieee::number::Number;
use vstd::arithmetic::power2::*;
use vstd::prelude::*;

verus! {

/// The root of `n` square units lies above the midpoint below `k`, or on it
/// with `k` even.
pub open spec fn root_reaches(f: Format, k: nat, n: nat) -> bool {
    k > 0 ==> {
        let low = grid::twice_midpoint(f, (k - 1) as nat);
        low * low < 4 * n || (low * low == 4 * n && k % 2 == 0)
    }
}

/// The root of `n` square units lies below the midpoint above `k`, or on it
/// with `k` even.
pub open spec fn root_stays_under(f: Format, k: nat, n: nat) -> bool {
    let high = grid::twice_midpoint(f, k);
    4 * n < high * high || (4 * n == high * high && k % 2 == 0)
}

/// The `k`-th magnitude is the one nearest to the root of `n` square units, the
/// even one on a tie.
pub open spec fn nearest_root(f: Format, k: nat, n: nat) -> bool {
    k < f.infinity() && root_reaches(f, k, n) && root_stays_under(f, k, n)
}

/// Index of the magnitude nearest to the root of `n` square units.
pub open spec fn round_root(f: Format, n: nat) -> nat {
    choose|k: nat| #[trigger] nearest_root(f, k, n)
}

/// The square root of a value: a zero is its own root, and below zero there is
/// none.
pub open spec fn root(f: Format, x: Number) -> Number {
    if number::is_nan(f, x) || (x.negative && x.index > 0) {
        number::nan(f)
    } else if x.index == 0 || number::is_infinite(f, x) {
        x
    } else {
        Number {
            negative: false,
            index: round_root(f, grid::units(f, x.index as nat) * pow2(f.scale())) as u64,
        }
    }
}

proof fn lemma_root_order(f: Format, j: nat, k: nat, n: nat)
    requires
        j < k,
        nearest_root(f, j, n),
    ensures
        !nearest_root(f, k, n),
{
    let a = grid::twice_midpoint(f, j);
    let b = grid::twice_midpoint(f, (k - 1) as nat);
    grid::lemma_units_increase(f, j, (k - 1) as nat);
    grid::lemma_units_increase(f, (j + 1) as nat, k);
    assert(a * a <= b * b) by (nonlinear_arith)
        requires
            a <= b,
    ;
    if j + 1 < k {
        assert(a * a < b * b) by (nonlinear_arith)
            requires
                a < b,
        ;
    }
}

pub(crate) proof fn lemma_root_is(f: Format, k: nat, n: nat)
    requires
        nearest_root(f, k, n),
    ensures
        round_root(f, n) == k,
{
    let j = round_root(f, n);
    if j < k {
        lemma_root_order(f, j, k, n);
    } else if k < j {
        lemma_root_order(f, k, j, n);
    }
}

/// From the `e`-th binade on, magnitudes are whole multiples of `2^e` units.
proof fn lemma_multiple(f: Format, j: nat, e: nat)
    requires
        j >= (e + 1) * f.binade(),
    ensures
        exists|c: nat| grid::units(f, j) == #[trigger] (c * pow2(e)),
{
    let (d, r) = grid::lemma_split(f, j);
    let b = f.binade();
    assert(d >= e) by (nonlinear_arith)
        requires
            j >= (e + 1) * b,
            j == d * b + r,
            r < 2 * b,
            b > 0,
    ;
    lemma_pow2_adds((d - e) as nat, e);
    let c = r * pow2((d - e) as nat);
    assert(r * (pow2((d - e) as nat) * pow2(e)) == c * pow2(e)) by (nonlinear_arith)
        requires
            c == r * pow2((d - e) as nat),
    ;
    assert(grid::units(f, j) == c * pow2(e));
}

/// A value at least the `j`-th magnitude rounds to no lower one.
proof fn lemma_at_least(f: Format, k: nat, j: nat, n: nat, d: nat)
    requires
        d > 0,
        grid::nearest(f, k, n, d),
        j <= f.infinity(),
        n >= grid::units(f, j) * d,
    ensures
        k >= j,
{
    if k < j {
        let high = grid::twice_midpoint(f, k);
        let u = grid::units(f, j);
        grid::lemma_units_step(f, k);
        grid::lemma_units_increase(f, (k + 1) as nat, j);
        assert(high * d < 2 * (u * d)) by (nonlinear_arith)
            requires
                high < 2 * u,
                d > 0,
        ;
    }
}

/// Largest number whose square is at most `m`.
fn whole_root(m: u128) -> (r: u128)
    requires
        m < pow2(120),
    ensures
        r * r <= m < (r + 1) * (r + 1),
        r < pow2(60),
{
    let mut low: u128 = 0;
    let mut high: u128 = 0x1000_0000_0000_0000;
    proof {
        lemma2_to64();
        lemma2_to64_rest();
        lemma_pow2_adds(60, 60);
    }
    while high - low > 1
        invariant
            low < high <= 0x1000_0000_0000_0000,
            low * low <= m < high * high,
            pow2(60) == 0x1000_0000_0000_0000,
        decreases high - low,
    {
        let middle: u128 = low + (high - low) / 2;
        proof {
            assert(middle * middle <= 0x1000_0000_0000_0000 * 0x1000_0000_0000_0000)
                by (nonlinear_arith)
                requires
                    middle <= 0x1000_0000_0000_0000,
            ;
        }
        if middle * middle <= m {
            low = middle;
        } else {
            high = middle;
        }
    }
    low
}

/// Rounds `r * 2^q`, with `sticky` for a root between that and the next, to the
/// nearest magnitude. The root is of `m * 2^(2q)` square units.
fn round_root_of(f: Format, r: u128, q: i32, sticky: bool, Ghost(m): Ghost<nat>, Ghost(n): Ghost<nat>) -> (k: u64)
    requires
        pow2(59) <= r < pow2(60),
        1 <= q <= 2000,
        n == m * pow2(q as nat) * pow2(q as nat),
        sticky ==> r * r < m < (r + 1) * (r + 1),
        !sticky ==> r * r == m,
        q + 60 + 1 <= f.infinity() / f.binade() + f.precision() - 2,
    ensures
        nearest_root(f, k as nat, n),
        k == round_root(f, n),
        k < f.infinity(),
{
    let ghost up = pow2(q as nat);
    let ghost over: nat = if sticky {
        ((2 * r + 1) * up) as nat
    } else {
        (r * up) as nat
    };
    let ghost under: nat = if sticky {
        2
    } else {
        1
    };
    proof {
        lemma_pow2_pos(q as nat);
        lemma2_to64();
        lemma_pow2_strictly_increases(60, 120);
        if f.precision() + 1 < 59 {
            lemma_pow2_strictly_increases(f.precision() + 1, 59);
        }
        if sticky {
            assert(r * up * 2 < over * 1 < (r + 1) * up * 2) by (nonlinear_arith)
                requires
                    over == (2 * r + 1) * up,
                    up > 0,
            ;
        } else {
            assert(over * 1 == r * up * 1);
        }
        assert(grid::bracketed(r as nat, q as int, sticky, over, under));
    }
    let k = grid::round_scaled(f, r, q, sticky, Ghost(over), Ghost(under));
    proof {
        lemma_root_of(f, k as nat, r as nat, q as nat, sticky, m, n, over, under);
        lemma_root_is(f, k as nat, n);
    }
    k
}

proof fn lemma_root_of(
    f: Format,
    k: nat,
    r: nat,
    q: nat,
    sticky: bool,
    m: nat,
    n: nat,
    over: nat,
    under: nat,
)
    requires
        grid::nearest(f, k, over, under),
        pow2(59) <= r < pow2(60),
        1 <= q,
        n == m * pow2(q) * pow2(q),
        sticky ==> r * r < m < (r + 1) * (r + 1),
        !sticky ==> r * r == m,
        over == if sticky {
            (2 * r + 1) * pow2(q)
        } else {
            r * pow2(q)
        },
        under == if sticky {
            2nat
        } else {
            1nat
        },
        q + 60 + 1 <= f.infinity() / f.binade() + f.precision() - 2,
    ensures
        nearest_root(f, k, n),
{
    let up = pow2(q);
    let b = f.binade();
    let p = f.precision();
    lemma_pow2_pos(q);
    lemma2_to64();
    grid::lemma_binade(f);
    // The root is at least 2^(59 + q), which is the magnitude at index `j`.
    let e = (59 + q - (p - 1)) as nat;
    let j = e * b + b;
    grid::lemma_units_at(f, e, b);
    lemma_pow2_adds((p - 1) as nat, e);
    lemma_pow2_adds(59, q);
    assert(grid::units(f, j) == pow2(59 + q));
    assert(over >= pow2(59 + q) * under) by (nonlinear_arith)
        requires
            r >= pow2(59),
            up > 0,
            pow2(59 + q) == pow2(59) * up,
            over == (if sticky { (2 * r + 1) * up } else { r * up }),
            under == (if sticky { 2nat } else { 1nat }),
    ;
    // And under 2^(60 + q), the magnitude one binade up.
    let top = (e + 1) * b + b;
    grid::lemma_units_at(f, (e + 1) as nat, b);
    lemma_pow2_adds((p - 1) as nat, (e + 1) as nat);
    lemma_pow2_adds(60, q);
    assert((e + 1) * b == e * b + b) by (nonlinear_arith);
    assert(over <= pow2(60 + q) * under) by (nonlinear_arith)
        requires
            r + 1 <= pow2(60),
            up > 0,
            pow2(60 + q) == pow2(60) * up,
            over == (if sticky { (2 * r + 1) * up } else { r * up }),
            under == (if sticky { 2nat } else { 1nat }),
    ;
    vstd::arithmetic::div_mod::lemma_fundamental_div_mod(f.infinity() as int, b as int);
    let c = f.infinity() / b;
    assert(top + b <= f.infinity()) by (nonlinear_arith)
        requires
            f.infinity() == b * c,
            e + 3 <= c,
            top == (e + 1) * b + b,
    ;
    lemma_at_least(f, k, j, over, under);
    assert(k <= top) by {
        if k > top {
            let low = grid::twice_midpoint(f, (k - 1) as nat);
            let u = grid::units(f, top);
            grid::lemma_units_increase(f, top, (k - 1) as nat);
            grid::lemma_units_step(f, (k - 1) as nat);
            assert(low * under > 2 * over) by (nonlinear_arith)
                requires
                    low > 2 * u,
                    over <= u * under,
                    under > 0,
            ;
        }
    }
    // Every midpoint around is a whole multiple of two of the steps of `r`.
    let low = grid::twice_midpoint(f, (k - 1) as nat);
    let high = grid::twice_midpoint(f, k);
    let g = (e - 1) as nat;
    assert((g + 1) * b == e * b) by (nonlinear_arith)
        requires
            g + 1 == e,
    ;
    lemma_multiple(f, (k - 1) as nat, g);
    lemma_multiple(f, k, g);
    lemma_multiple(f, (k + 1) as nat, g);
    let a0 = choose|c: nat| grid::units(f, (k - 1) as nat) == #[trigger] (c * pow2(g));
    let a1 = choose|c: nat| grid::units(f, k) == #[trigger] (c * pow2(g));
    let a2 = choose|c: nat| grid::units(f, (k + 1) as nat) == #[trigger] (c * pow2(g));
    assert(low == (a0 + a1) * pow2(g)) by (nonlinear_arith)
        requires
            low == a0 * pow2(g) + a1 * pow2(g),
    ;
    assert(high == (a1 + a2) * pow2(g)) by (nonlinear_arith)
        requires
            high == a1 * pow2(g) + a2 * pow2(g),
    ;
    let h = (g - q - 1) as nat;
    lemma_pow2_adds(h, (q + 1) as nat);
    lemma_pow2_unfold((q + 1) as nat);
    let step = 2 * up;
    let wl = (a0 + a1) * pow2(h);
    let wh = (a1 + a2) * pow2(h);
    assert(low == wl * step) by (nonlinear_arith)
        requires
            low == (a0 + a1) * pow2(g),
            pow2(g) == pow2(h) * step,
            wl == (a0 + a1) * pow2(h),
    ;
    assert(high == wh * step) by (nonlinear_arith)
        requires
            high == (a1 + a2) * pow2(g),
            pow2(g) == pow2(h) * step,
            wh == (a1 + a2) * pow2(h),
    ;
    lemma_compare(low, wl, r, q, sticky, m, n);
    lemma_compare(high, wh, r, q, sticky, m, n);
    if sticky {
        assert(wl <= r) by (nonlinear_arith)
            requires
                low * 2 <= 2 * over,
                over == (2 * r + 1) * up,
                low == wl * (2 * up),
                up > 0,
        ;
        assert(wh > r) by (nonlinear_arith)
            requires
                2 * over <= high * 2,
                over == (2 * r + 1) * up,
                high == wh * (2 * up),
                up > 0,
        ;
    } else {
        assert(low * 1 == low && high * 1 == high);
        assert(wl <= r && (low < 2 * over ==> wl < r)) by (nonlinear_arith)
            requires
                low <= 2 * over,
                over == r * up,
                low == wl * (2 * up),
                up > 0,
        ;
        assert(wh >= r && (2 * over < high ==> wh > r)) by (nonlinear_arith)
            requires
                2 * over <= high,
                over == r * up,
                high == wh * (2 * up),
                up > 0,
        ;
    }
}

/// A midpoint of `w` double steps compares with the root as `w` does with `r`.
proof fn lemma_compare(t: nat, w: nat, r: nat, q: nat, sticky: bool, m: nat, n: nat)
    requires
        t == w * (2 * pow2(q)),
        n == m * pow2(q) * pow2(q),
        sticky ==> r * r < m < (r + 1) * (r + 1),
        !sticky ==> r * r == m,
    ensures
        w < r || (w == r && sticky) ==> t * t < 4 * n,
        w == r && !sticky ==> t * t == 4 * n,
        w > r ==> t * t > 4 * n,
{
    let up = pow2(q);
    lemma_pow2_pos(q);
    let s = up * up;
    assert(s > 0) by (nonlinear_arith)
        requires
            s == up * up,
            up > 0,
    ;
    assert(t * t == 4 * ((w * w) * s)) by (nonlinear_arith)
        requires
            t == w * (2 * up),
            s == up * up,
    ;
    assert(n == m * s) by (nonlinear_arith)
        requires
            n == m * up * up,
            s == up * up,
    ;
    if w < r || (w == r && sticky) {
        assert(w * w < m) by (nonlinear_arith)
            requires
                w <= r,
                r * r <= m,
                w < r || r * r < m,
        ;
        assert((w * w) * s < m * s) by (nonlinear_arith)
            requires
                w * w < m,
                s > 0,
        ;
    } else if w > r {
        assert(w * w > m) by (nonlinear_arith)
            requires
                w >= r + 1,
                m < (r + 1) * (r + 1) || m == r * r,
        ;
        assert((w * w) * s > m * s) by (nonlinear_arith)
            requires
                w * w > m,
                s > 0,
        ;
    }
}

/// The square root of a value.
pub fn root_number(f: Format, x: Number) -> (r: Number)
    ensures
        r == root(f, x),
        r.index <= f.quiet_nan(),
{
    let top = f.infinity_index();
    if x.index > top || (x.negative && x.index > 0) {
        return Number { negative: false, index: f.nan_index() };
    }
    if x.index == 0 || x.index == top {
        return x;
    }
    let (m, e) = number::split(f, x.index);
    let ghost b = f.binade();
    let ghost n = grid::units(f, x.index as nat) * pow2(f.scale());
    let length = grid::bit_length(m as u128);
    proof {
        lemma2_to64();
        lemma2_to64_rest();
        grid::lemma_binade(f);
        if length > 54 {
            lemma_pow2_strictly_increases(53, (length - 1) as nat);
        }
        assert(length <= 53);
        vstd::arithmetic::div_mod::lemma_fundamental_div_mod(f.infinity() as int, b as int);
        assert(e < f.infinity() / b) by (nonlinear_arith)
            requires
                x.index == e * b + m,
                x.index < f.infinity(),
                f.infinity() == b * (f.infinity() / b),
                m >= 0,
                b > 0,
        ;
    }
    let t: i32 = e + f.scale_bits();
    let near: i32 = 119 - length as i32;
    let s: i32 = if (t - near) % 2 == 0 {
        near
    } else {
        near + 1
    };
    let q: i32 = (t - s) / 2;
    proof {
        assert(t - s == 2 * q);
        let ps = pow2(s as nat);
        lemma_pow2_pos(s as nat);
        lemma_pow2_adds(length as nat, s as nat);
        lemma_pow2_adds((length - 1) as nat, s as nat);
        if s == near {
            lemma_pow2_strictly_increases(119, 120);
        } else {
            lemma_pow2_strictly_increases(118, 119);
        }
        assert(m * ps < pow2(120)) by (nonlinear_arith)
            requires
                m < pow2(length as nat),
                ps > 0,
                pow2(120) >= pow2(length as nat) * ps,
        ;
        assert(m * ps >= pow2(118)) by (nonlinear_arith)
            requires
                m >= pow2((length - 1) as nat),
                ps > 0,
                pow2(118) <= pow2((length - 1) as nat) * ps,
        ;
        lemma_pow2_adds(64, 56);
        lemma_pow2_adds(59, 59);
    }
    let wide: u128 = m as u128 * grid::power_of_two(s as u32);
    let r = whole_root(wide);
    let sticky = r * r != wide;
    proof {
        let w = pow2(59);
        assert(r >= w) by (nonlinear_arith)
            requires
                wide >= w * w,
                wide < (r + 1) * (r + 1),
        ;
        lemma_pow2_adds(s as nat, (2 * q) as nat);
        lemma_pow2_adds(e as nat, f.scale());
        lemma_pow2_adds(q as nat, q as nat);
        let pq = pow2(q as nat);
        let ps = pow2(s as nat);
        assert(n == wide * pq * pq) by (nonlinear_arith)
            requires
                n == m * pow2(e as nat) * pow2(f.scale()),
                pow2(e as nat) * pow2(f.scale()) == ps * (pq * pq),
                wide == m * ps,
        ;
    }
    let k = round_root_of(f, r, q, sticky, Ghost(wide as nat), Ghost(n));
    Number { negative: false, index: k }
}

} // verus!
