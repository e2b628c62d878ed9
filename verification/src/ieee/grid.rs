//! The grid of magnitudes that a binary floating-point format can represent.
//!
//! Without its sign, a value of an IEEE 754 binary format is an index into an
//! increasing list of magnitudes: index 0 is zero, index 1 the smallest
//! subnormal, and so on up to the index that stands for infinity. Every finite
//! magnitude is a whole number of the smallest subnormal, its *units*, so all
//! statements about rounding can be made on integers.

use vstd::arithmetic::div_mod::*;
use vstd::arithmetic::power2::*;
use vstd::prelude::*;

verus! {

/// The two formats the pipeline works in.
#[derive(Clone, Copy, Debug, PartialEq, Eq, Structural)]
pub enum Format {
    /// `binary32`, 24 bits of precision.
    Single,
    /// `binary64`, 53 bits of precision.
    Double,
}

impl Format {
    /// Bits of the significand, the hidden one included.
    pub open spec fn precision(self) -> nat {
        match self {
            Format::Single => 24,
            Format::Double => 53,
        }
    }

    /// How many magnitudes share one exponent.
    pub open spec fn binade(self) -> nat {
        match self {
            Format::Single => 0x80_0000,
            Format::Double => 0x10_0000_0000_0000,
        }
    }

    /// Index of the magnitude that stands for infinity; a larger index is a NaN.
    pub open spec fn infinity(self) -> nat {
        match self {
            Format::Single => 0x7f80_0000,
            Format::Double => 0x7ff0_0000_0000_0000,
        }
    }

    /// Index of the magnitude of the default NaN.
    pub open spec fn quiet_nan(self) -> nat {
        match self {
            Format::Single => 0x7fc0_0000,
            Format::Double => 0x7ff8_0000_0000_0000,
        }
    }

    /// The value 1 is `2^scale` units.
    pub open spec fn scale(self) -> nat {
        match self {
            Format::Single => 149,
            Format::Double => 1074,
        }
    }
}

/// The `k`-th magnitude, in units of the smallest subnormal.
///
/// At the index of infinity this is the next power of two after the largest
/// finite magnitude, the value that overflow is rounded against.
pub open spec fn units(f: Format, k: nat) -> nat {
    let b = f.binade();
    if k < b {
        k
    } else {
        (b + k % b) * pow2((k / b - 1) as nat)
    }
}

/// Twice the midpoint between the `k`-th magnitude and the next.
pub open spec fn twice_midpoint(f: Format, k: nat) -> nat {
    units(f, k) + units(f, k + 1)
}

/// `n / d` units lie above the midpoint below `k`, or on it with `k` even.
pub open spec fn reaches(f: Format, k: nat, n: nat, d: nat) -> bool {
    k > 0 ==> {
        let low = twice_midpoint(f, (k - 1) as nat) * d;
        low < 2 * n || (low == 2 * n && k % 2 == 0)
    }
}

/// `n / d` units lie below the midpoint above `k`, or on it with `k` even.
pub open spec fn stays_under(f: Format, k: nat, n: nat, d: nat) -> bool {
    let high = twice_midpoint(f, k) * d;
    2 * n < high || (2 * n == high && k % 2 == 0)
}

/// The `k`-th magnitude is the one nearest to `n / d` units, the even one on a tie.
pub open spec fn nearest(f: Format, k: nat, n: nat, d: nat) -> bool {
    &&& k <= f.infinity()
    &&& reaches(f, k, n, d)
    &&& k < f.infinity() ==> stays_under(f, k, n, d)
}

/// Index of the magnitude nearest to `n / d` units, ties to even.
pub open spec fn round_magnitude(f: Format, n: nat, d: nat) -> nat {
    choose|k: nat| #[trigger] nearest(f, k, n, d)
}

pub proof fn lemma_binade(f: Format)
    ensures
        f.binade() == pow2((f.precision() - 1) as nat),
        2 * f.binade() == pow2(f.precision()),
        f.binade() % 2 == 0,
        f.infinity() % f.binade() == 0,
        f.infinity() > 2 * f.binade(),
{
    lemma2_to64();
    lemma2_to64_rest();
    assert(pow2(23) == 0x80_0000);
    assert(pow2(52) == 0x10_0000_0000_0000);
}

/// A significand `r` at exponent `e` sits at index `e * binade + r`.
pub proof fn lemma_units_at(f: Format, e: nat, r: nat)
    requires
        r <= 2 * f.binade(),
        e == 0 || f.binade() <= r,
    ensures
        units(f, e * f.binade() + r) == r * pow2(e),
{
    let b = f.binade() as int;
    let k = e * b + r;
    lemma2_to64();
    assert(e * b >= 0) by (nonlinear_arith)
        requires
            b > 0,
            e >= 0,
    ;
    if r < b {
        assert(e == 0);
        assert(0 * b == 0);
    } else if r < 2 * b {
        assert(k == (e + 1) * b + (r - b)) by (nonlinear_arith)
            requires
                k == e * b + r,
        ;
        lemma_fundamental_div_mod_converse(k, b, (e + 1) as int, r - b);
        assert(k >= b);
    } else {
        assert(k == (e + 2) * b + 0) by (nonlinear_arith)
            requires
                k == e * b + r,
                r == 2 * b,
        ;
        lemma_fundamental_div_mod_converse(k, b, (e + 2) as int, 0);
        lemma_pow2_unfold((e + 1) as nat);
        assert(b * pow2((e + 1) as nat) == r * pow2(e)) by (nonlinear_arith)
            requires
                pow2((e + 1) as nat) == 2 * pow2(e),
                r == 2 * b,
        ;
    }
}

/// The index splits into a significand and an exponent.
pub proof fn lemma_split(f: Format, k: nat) -> (s: (nat, nat))
    ensures
        k == s.0 * f.binade() + s.1,
        units(f, k) == s.1 * pow2(s.0),
        s.1 < 2 * f.binade(),
        s.0 == 0 || f.binade() <= s.1,
{
    let b = f.binade() as int;
    lemma2_to64();
    if k < b {
        assert(0 * b == 0);
        (0, k)
    } else {
        lemma_fundamental_div_mod(k as int, b);
        let e = (k as int / b - 1) as nat;
        let r = (b + k as int % b) as nat;
        assert(k as int / b >= 1) by {
            lemma_div_is_ordered(b, k as int, b);
            lemma_div_by_self(b);
        }
        assert(k == e * b + r) by (nonlinear_arith)
            requires
                k as int == b * (k as int / b) + (k as int % b),
                e == k as int / b - 1,
                r == b + k as int % b,
        ;
        (e, r)
    }
}

pub proof fn lemma_units_step(f: Format, k: nat)
    ensures
        units(f, k) < units(f, k + 1),
{
    let (e, r) = lemma_split(f, k);
    lemma_units_at(f, e, (r + 1) as nat);
    lemma_pow2_pos(e);
    assert(k + 1 == e * f.binade() + (r + 1));
    assert((r + 1) * pow2(e) > r * pow2(e)) by (nonlinear_arith)
        requires
            pow2(e) > 0,
    ;
}

pub proof fn lemma_units_increase(f: Format, j: nat, k: nat)
    requires
        j <= k,
    ensures
        units(f, j) <= units(f, k),
        j < k ==> units(f, j) < units(f, k),
        k <= units(f, k),
    decreases k,
{
    if k > 0 {
        lemma_units_step(f, (k - 1) as nat);
        if j < k {
            lemma_units_increase(f, j, (k - 1) as nat);
        } else {
            lemma_units_increase(f, (k - 1) as nat, (k - 1) as nat);
        }
    }
}

/// At most one magnitude is nearest.
pub proof fn lemma_nearest_unique(f: Format, j: nat, k: nat, n: nat, d: nat)
    requires
        d > 0,
        nearest(f, j, n, d),
        nearest(f, k, n, d),
    ensures
        j == k,
{
    if j < k {
        lemma_nearest_order(f, j, k, n, d);
    } else if k < j {
        lemma_nearest_order(f, k, j, n, d);
    }
}

proof fn lemma_nearest_order(f: Format, j: nat, k: nat, n: nat, d: nat)
    requires
        d > 0,
        j < k,
        nearest(f, j, n, d),
    ensures
        !nearest(f, k, n, d),
{
    let a = twice_midpoint(f, j);
    let b = twice_midpoint(f, (k - 1) as nat);
    lemma_units_increase(f, j, (k - 1) as nat);
    lemma_units_increase(f, (j + 1) as nat, k);
    assert(a * d <= b * d) by (nonlinear_arith)
        requires
            a <= b,
            d > 0,
    ;
    if j + 1 < k {
        assert(a * d < b * d) by (nonlinear_arith)
            requires
                a < b,
                d > 0,
        ;
    }
}

/// What is nearest is what rounding yields.
pub proof fn lemma_round_is(f: Format, k: nat, n: nat, d: nat)
    requires
        d > 0,
        nearest(f, k, n, d),
    ensures
        round_magnitude(f, n, d) == k,
{
    lemma_nearest_unique(f, k, round_magnitude(f, n, d), n, d);
}

/// Rounding without a largest magnitude, then cut at infinity, is rounding.
pub proof fn lemma_nearest_cut(f: Format, k: nat, n: nat, d: nat)
    requires
        d > 0,
        reaches(f, k, n, d),
        stays_under(f, k, n, d),
    ensures
        nearest(f, if k < f.infinity() { k } else { f.infinity() }, n, d),
{
    let top = f.infinity();
    if k > top {
        lemma_units_increase(f, (top - 1) as nat, (k - 1) as nat);
        lemma_units_increase(f, top, k);
        let a = twice_midpoint(f, (top - 1) as nat);
        let b = twice_midpoint(f, (k - 1) as nat);
        assert(a * d < b * d) by (nonlinear_arith)
            requires
                a < b,
                d > 0,
        ;
    }
}

/// A representable magnitude rounds to itself.
pub proof fn lemma_nearest_exact(f: Format, k: nat, n: nat, d: nat)
    requires
        d > 0,
        n == units(f, k) * d,
    ensures
        reaches(f, k, n, d),
        stays_under(f, k, n, d),
{
    let u = units(f, k);
    lemma_units_step(f, k);
    assert(2 * (u * d) < (u + units(f, k + 1)) * d) by (nonlinear_arith)
        requires
            u < units(f, k + 1),
            d > 0,
    ;
    if k > 0 {
        let w = units(f, (k - 1) as nat);
        lemma_units_step(f, (k - 1) as nat);
        assert((w + u) * d < 2 * (u * d)) by (nonlinear_arith)
            requires
                w < u,
                d > 0,
        ;
    }
}

impl Format {
    /// Bits of the significand, the hidden one included.
    pub(crate) fn precision_bits(self) -> (p: u32)
        ensures
            p == self.precision(),
    {
        match self {
            Format::Single => 24,
            Format::Double => 53,
        }
    }

    /// How many magnitudes share one exponent.
    pub(crate) fn binade_len(self) -> (b: u64)
        ensures
            b == self.binade(),
    {
        match self {
            Format::Single => 0x80_0000,
            Format::Double => 0x10_0000_0000_0000,
        }
    }

    /// Index of the magnitude that stands for infinity.
    pub(crate) fn infinity_index(self) -> (k: u64)
        ensures
            k == self.infinity(),
    {
        match self {
            Format::Single => 0x7f80_0000,
            Format::Double => 0x7ff0_0000_0000_0000,
        }
    }

    /// Index of the magnitude of the default NaN.
    pub(crate) fn nan_index(self) -> (k: u64)
        ensures
            k == self.quiet_nan(),
    {
        match self {
            Format::Single => 0x7fc0_0000,
            Format::Double => 0x7ff8_0000_0000_0000,
        }
    }

    /// The value 1 is two to this power in units.
    pub(crate) fn scale_bits(self) -> (s: i32)
        ensures
            s == self.scale(),
    {
        match self {
            Format::Single => 149,
            Format::Double => 1074,
        }
    }
}

/// The exact value `n / d` is `m * 2^q`, or strictly between that and
/// `(m + 1) * 2^q` where bits were dropped (`sticky`).
pub open spec fn bracketed(m: nat, q: int, sticky: bool, n: nat, d: nat) -> bool {
    let up = pow2(if q > 0 { q as nat } else { 0 });
    let down = pow2(if q < 0 { (-q) as nat } else { 0 });
    if sticky {
        m * up * d < n * down < (m + 1) * up * d
    } else {
        n * down == m * up * d
    }
}

pub(crate) proof fn lemma_pow2_shift(s: u128)
    requires
        s < 128,
    ensures
        (1u128 << s) == pow2(s as nat),
    decreases s,
{
    lemma2_to64();
    if s == 0 {
        assert(1u128 << 0u128 == 1) by (bit_vector);
    } else {
        let t = (s - 1) as u128;
        lemma_pow2_shift(t);
        lemma_pow2_unfold(s as nat);
        assert(1u128 << s == 2 * (1u128 << t)) by (bit_vector)
            requires
                0 < s < 128,
                t == s - 1,
        ;
    }
}

/// `2^s`.
pub(crate) fn power_of_two(s: u32) -> (r: u128)
    requires
        s < 128,
    ensures
        r == pow2(s as nat),
{
    proof {
        lemma_pow2_shift(s as u128);
    }
    1u128 << (s as u128)
}

/// Where the highest bit of a number stands.
proof fn lemma_leading_zeros(i: u64)
    requires
        i > 0,
    ensures
        0 <= vstd::std_specs::bits::u64_leading_zeros(i) < 64,
        pow2((63 - vstd::std_specs::bits::u64_leading_zeros(i)) as nat) <= i < pow2(
            (64 - vstd::std_specs::bits::u64_leading_zeros(i)) as nat,
        ),
    decreases i,
{
    reveal(vstd::std_specs::bits::u64_leading_zeros);
    lemma2_to64();
    lemma2_to64_rest();
    if i == 1 {
        assert(vstd::std_specs::bits::u64_leading_zeros(0) == 64);
    } else {
        let half = i / 2;
        lemma_leading_zeros(half);
        let n = 64 - vstd::std_specs::bits::u64_leading_zeros(half);
        lemma_pow2_unfold(n as nat);
        lemma_pow2_unfold((n + 1) as nat);
        if n == 64 {
            assert(pow2(63) == 0x8000_0000_0000_0000);
        }
    }
}

/// Number of bits needed to write `m`.
pub(crate) fn bit_length(m: u128) -> (n: u32)
    requires
        m > 0,
    ensures
        0 < n <= 128,
        pow2((n - 1) as nat) <= m < pow2(n as nat),
{
    let high = (m >> 64u128) as u64;
    proof {
        vstd::bits::lemma_u128_shr_is_div(m, 64);
        lemma2_to64_rest();
        assert(m >> 64u128 <= 0xffff_ffff_ffff_ffff) by (bit_vector);
    }
    if high > 0 {
        let zeros = high.leading_zeros();
        proof {
            lemma_leading_zeros(high);
            let n = (64 - zeros) as nat;
            lemma_pow2_adds((n - 1) as nat, 64);
            lemma_pow2_adds(n, 64);
            lemma_fundamental_div_mod(m as int, pow2(64) as int);
            lemma_mod_bound(m as int, pow2(64) as int);
            assert(pow2((n - 1) as nat) * pow2(64) <= m < pow2(n) * pow2(64)) by (nonlinear_arith)
                requires
                    m == pow2(64) * high + m as int % pow2(64) as int,
                    0 <= m as int % pow2(64) as int,
                    (m as int % pow2(64) as int) < pow2(64),
                    pow2((n - 1) as nat) <= high,
                    high + 1 <= pow2(n),
            ;
        }
        128 - zeros
    } else {
        proof {
            lemma_fundamental_div_mod(m as int, pow2(64) as int);
            lemma_mod_bound(m as int, pow2(64) as int);
            lemma_leading_zeros(m as u64);
        }
        64 - (m as u64).leading_zeros()
    }
}

proof fn lemma_cancel(a: int, b: int, c: int)
    requires
        c > 0,
    ensures
        a * c < b * c ==> a < b,
        a * c <= b * c ==> a <= b,
        a * c == b * c ==> a == b,
{
    assert(a >= b ==> a * c >= b * c) by (nonlinear_arith)
        requires
            c > 0,
    ;
    assert(a > b ==> a * c > b * c) by (nonlinear_arith)
        requires
            c > 0,
    ;
    assert(a < b ==> a * c < b * c) by (nonlinear_arith)
        requires
            c > 0,
    ;
}

/// Nothing below a magnitude's own value rounds past it.
proof fn lemma_reaches_at(f: Format, k: nat, n: nat, d: nat)
    requires
        d > 0,
        n >= units(f, k) * d,
    ensures
        reaches(f, k, n, d),
{
    if k > 0 {
        let u = units(f, k);
        let w = units(f, (k - 1) as nat);
        lemma_units_step(f, (k - 1) as nat);
        assert((w + u) * d < 2 * (u * d)) by (nonlinear_arith)
            requires
                w < u,
                d > 0,
        ;
    }
}

proof fn lemma_stays_at(f: Format, k: nat, n: nat, d: nat)
    requires
        d > 0,
        n <= units(f, k) * d,
    ensures
        stays_under(f, k, n, d),
{
    let u = units(f, k);
    lemma_units_step(f, k);
    assert(2 * (u * d) < (u + units(f, k + 1)) * d) by (nonlinear_arith)
        requires
            u < units(f, k + 1),
            d > 0,
    ;
}

/// Where the exact value lies between two neighbouring significands `r` and
/// `r + 1` at exponent `e`, decided by the dropped bits `rem` of `two_s`.
proof fn lemma_position(
    e: nat,
    r: nat,
    rem: nat,
    two_s: nat,
    up: nat,
    down: nat,
    m: nat,
    sticky: bool,
    n: nat,
    d: nat,
)
    requires
        d > 0,
        up > 0,
        down > 0,
        rem < two_s,
        m == r * two_s + rem,
        pow2(e) * down == two_s * up,
        if sticky {
            m * up * d < n * down < (m + 1) * up * d
        } else {
            n * down == m * up * d
        },
    ensures
        r * pow2(e) * d <= n <= (r + 1) * pow2(e) * d,
        2 * rem > two_s ==> (2 * r + 1) * pow2(e) * d < 2 * n,
        2 * rem == two_s && sticky ==> (2 * r + 1) * pow2(e) * d < 2 * n,
        2 * rem == two_s && !sticky ==> (2 * r + 1) * pow2(e) * d == 2 * n,
        2 * rem + 1 < two_s ==> 2 * n < (2 * r + 1) * pow2(e) * d,
        2 * rem < two_s && !sticky ==> 2 * n < (2 * r + 1) * pow2(e) * d,
{
    let p = pow2(e) as int;
    let w = two_s * up;
    assert(m * up == r * w + rem * up) by (nonlinear_arith)
        requires
            m == r * two_s + rem,
            w == two_s * up,
    ;
    assert((m + 1) * up == r * w + (rem + 1) * up) by (nonlinear_arith)
        requires
            m == r * two_s + rem,
            w == two_s * up,
    ;
    let nd = n * down;
    // The exact value is at least the lower significand.
    assert(r * w * d <= m * up * d) by (nonlinear_arith)
        requires
            m * up == r * w + rem * up,
            d > 0,
            up > 0,
            rem >= 0,
    ;
    assert((m + 1) * up * d <= (r + 1) * w * d) by (nonlinear_arith)
        requires
            (m + 1) * up == r * w + (rem + 1) * up,
            rem + 1 <= two_s,
            w == two_s * up,
            d > 0,
            up > 0,
    ;
    assert(m * up * d <= (m + 1) * up * d) by (nonlinear_arith)
        requires
            up > 0,
            d > 0,
    ;
    assert(r * p * d * down == r * w * d) by (nonlinear_arith)
        requires
            p * down == w,
    ;
    assert((r + 1) * p * d * down == (r + 1) * w * d) by (nonlinear_arith)
        requires
            p * down == w,
    ;
    assert((2 * r + 1) * p * d * down == (2 * r + 1) * w * d) by (nonlinear_arith)
        requires
            p * down == w,
    ;
    lemma_cancel(r * p * d, n as int, down as int);
    lemma_cancel(n as int, (r + 1) * p * d, down as int);
    lemma_cancel((2 * r + 1) * p * d, (2 * n) as int, down as int);
    lemma_cancel((2 * n) as int, (2 * r + 1) * p * d, down as int);
    assert(2 * n * down == 2 * nd) by (nonlinear_arith)
        requires
            nd == n * down,
    ;
    let half = (2 * r + 1) * w * d;
    if 2 * rem > two_s {
        assert(half < 2 * (m * up * d)) by (nonlinear_arith)
            requires
                half == (2 * r + 1) * w * d,
                m * up == r * w + rem * up,
                w == two_s * up,
                2 * rem > two_s,
                up > 0,
                d > 0,
        ;
    }
    if 2 * rem == two_s {
        assert(half == 2 * (m * up * d)) by (nonlinear_arith)
            requires
                half == (2 * r + 1) * w * d,
                m * up == r * w + rem * up,
                w == two_s * up,
                2 * rem == two_s,
        ;
    }
    if 2 * rem < two_s {
        assert(2 * (m * up * d) < half) by (nonlinear_arith)
            requires
                half == (2 * r + 1) * w * d,
                m * up == r * w + rem * up,
                w == two_s * up,
                2 * rem < two_s,
                up > 0,
                d > 0,
        ;
    }
    if 2 * rem + 1 < two_s {
        assert(2 * ((m + 1) * up * d) <= half) by (nonlinear_arith)
            requires
                half == (2 * r + 1) * w * d,
                (m + 1) * up == r * w + (rem + 1) * up,
                w == two_s * up,
                2 * (rem + 1) <= two_s,
                up > 0,
                d > 0,
        ;
    }
}

proof fn lemma_parity(e: nat, b: nat, r: nat)
    requires
        b % 2 == 0,
    ensures
        (e * b + r) % 2 == r % 2,
{
    let h = b as int / 2;
    assert(b == 2 * h);
    assert(e * b + r == 2 * (e * h) + r) by (nonlinear_arith)
        requires
            b == 2 * h,
    ;
}

/// The rounding decision on the dropped bits gives the nearest magnitude.
proof fn lemma_rounded(
    f: Format,
    e: nat,
    r: nat,
    rem: nat,
    two_s: nat,
    up: nat,
    down: nat,
    m: nat,
    sticky: bool,
    n: nat,
    d: nat,
    raised: bool,
)
    requires
        d > 0,
        up > 0,
        down > 0,
        rem < two_s,
        two_s % 2 == 0,
        m == r * two_s + rem,
        pow2(e) * down == two_s * up,
        if sticky {
            m * up * d < n * down < (m + 1) * up * d
        } else {
            n * down == m * up * d
        },
        r < 2 * f.binade(),
        e == 0 || f.binade() <= r,
        raised == (2 * rem > two_s || (2 * rem == two_s && (sticky || r % 2 == 1))),
    ensures
        ({
            let k = (e * f.binade() + r + if raised { 1int } else { 0 }) as nat;
            reaches(f, k, n, d) && stays_under(f, k, n, d)
        }),
{
    let b = f.binade();
    lemma_binade(f);
    let k = e * b + r;
    lemma_position(e, r, rem, two_s, up, down, m, sticky, n, d);
    lemma_units_at(f, e, r);
    lemma_units_at(f, e, (r + 1) as nat);
    lemma_parity(e, b, r);
    lemma_parity(e, b, (r + 1) as nat);
    assert(k + 1 == e * b + (r + 1));
    let p = pow2(e);
    let mid = (2 * r + 1) * p;
    assert(twice_midpoint(f, k) == mid) by {
        assert(units(f, k + 1) == (r + 1) * p);
        assert(r * p + (r + 1) * p == (2 * r + 1) * p) by (nonlinear_arith);
    }
    assert(k % 2 == r % 2);
    assert((k + 1) as nat % 2 == (r + 1) as nat % 2);
    if raised {
        assert(reaches(f, k + 1, n, d)) by {
            assert(mid * d < 2 * n || (mid * d == 2 * n && r % 2 == 1));
        }
        assert(n <= units(f, k + 1) * d);
        lemma_stays_at(f, k + 1, n, d);
    } else {
        assert(stays_under(f, k, n, d)) by {
            assert(2 * n < mid * d || (2 * n == mid * d && r % 2 == 0));
        }
        assert(n >= units(f, k) * d);
        lemma_reaches_at(f, k, n, d);
    }
}

/// `2^a * 2^b` against the pair of scale factors of an exponent `q`.
proof fn lemma_weights(q: int, s: nat)
    requires
        q + s >= 0,
    ensures
        pow2((q + s) as nat) * pow2(if q < 0 { (-q) as nat } else { 0 }) == pow2(s) * pow2(
            if q > 0 { q as nat } else { 0 },
        ),
{
    lemma2_to64();
    let e = (q + s) as nat;
    if q >= 0 {
        lemma_pow2_adds(s, q as nat);
        assert(s + q as nat == e);
        assert(pow2(e) * 1 == pow2(e));
        if q == 0 {
            assert(pow2(s) * 1 == pow2(s));
        }
    } else {
        lemma_pow2_adds(e, (-q) as nat);
        assert(e + (-q) as nat == s);
        assert(pow2(s) * 1 == pow2(s));
    }
}

/// Rounding where the whole significand fits: it moves up by `lift` bits.
fn round_lifted(
    f: Format,
    m: u128,
    lift: u32,
    e: u32,
    Ghost(length): Ghost<nat>,
    Ghost(n): Ghost<nat>,
    Ghost(d): Ghost<nat>,
) -> (k: u64)
    requires
        0 < length <= 120,
        pow2((length - 1) as nat) <= m < pow2(length),
        length + lift <= f.precision(),
        e == 0 || length + lift == f.precision(),
        d > 0,
        n == m * pow2((lift + e) as nat) * d,
    ensures
        nearest(f, k as nat, n, d),
{
    let ghost p = f.precision();
    let ghost t = pow2(lift as nat);
    proof {
        lemma_binade(f);
        lemma_pow2_pos(lift as nat);
        lemma_pow2_adds(length, lift as nat);
        if length + lift < p {
            lemma_pow2_strictly_increases((length + lift) as nat, p);
        }
        assert(m * t < pow2((length + lift) as nat)) by (nonlinear_arith)
            requires
                m < pow2(length),
                t > 0,
                pow2((length + lift) as nat) == pow2(length) * t,
        ;
        lemma2_to64_rest();
        lemma_pow2_strictly_increases(p, 64);
        lemma2_to64();
    }
    let r: u128 = m * power_of_two(lift);
    proof {
        lemma_pow2_adds(lift as nat, e as nat);
        assert(n == r * pow2(e as nat) * d) by (nonlinear_arith)
            requires
                n == m * pow2((lift + e) as nat) * d,
                r == m * t,
                pow2((lift + e) as nat) == t * pow2(e as nat),
        ;
        if e > 0 {
            lemma_pow2_adds((length - 1) as nat, lift as nat);
            assert(length - 1 + lift == p - 1);
            assert(pow2((length - 1) as nat) * t <= m * t) by (nonlinear_arith)
                requires
                    pow2((length - 1) as nat) <= m,
                    t > 0,
            ;
        }
        lemma_units_at(f, e as nat, r as nat);
        let k = e as nat * f.binade() + r as nat;
        lemma_nearest_exact(f, k, n, d);
        lemma_nearest_cut(f, k, n, d);
    }
    place(f, e, r as u64)
}

/// Far below half of the smallest magnitude, a value rounds to zero.
proof fn lemma_vanishes(f: Format, m: nat, down: nat, sticky: bool, n: nat, d: nat)
    requires
        d > 0,
        m < pow2(120),
        down >= pow2(122),
        if sticky {
            m * d < n * down < (m + 1) * d
        } else {
            n * down == m * d
        },
    ensures
        nearest(f, 0, n, d),
{
    lemma_pow2_unfold(122);
    lemma_pow2_unfold(121);
    assert(m * d < (m + 1) * d) by (nonlinear_arith)
        requires
            d > 0,
    ;
    assert(2 * n < d) by (nonlinear_arith)
        requires
            2 * (m + 1) <= down,
            n * down < (m + 1) * d,
            d > 0,
    ;
    assert(twice_midpoint(f, 0) == 1);
    lemma_nearest_cut(f, 0, n, d);
}

/// Rounding where the low `cut` bits are dropped.
fn round_dropped(
    f: Format,
    m: u128,
    q: i32,
    cut: u32,
    sticky: bool,
    Ghost(length): Ghost<nat>,
    Ghost(n): Ghost<nat>,
    Ghost(d): Ghost<nat>,
) -> (k: u64)
    requires
        0 < length <= 120,
        pow2((length - 1) as nat) <= m < pow2(length),
        0 < cut < 128,
        0 <= q + cut < 0x4000_0000,
        length <= f.precision() + cut,
        q + cut == 0 || length == f.precision() + cut,
        d > 0,
        bracketed(m as nat, q as int, sticky, n, d),
    ensures
        nearest(f, k as nat, n, d),
{
    let ghost p = f.precision();
    let ghost up = pow2(if q > 0 { q as nat } else { 0 });
    let ghost down = pow2(if q < 0 { (-q) as nat } else { 0 });
    let e: u32 = (q + cut as i32) as u32;
    let two_s: u128 = power_of_two(cut);
    let r: u128 = m >> (cut as u128);
    proof {
        lemma_binade(f);
        lemma_pow2_pos(if q > 0 { q as nat } else { 0 });
        lemma_pow2_pos(if q < 0 { (-q) as nat } else { 0 });
        lemma_pow2_pos(cut as nat);
        lemma_pow2_unfold(cut as nat);
        lemma_weights(q as int, cut as nat);
        vstd::bits::lemma_u128_shr_is_div(m, cut as u128);
        lemma_fundamental_div_mod(m as int, two_s as int);
        assert(r * two_s == two_s * r) by (nonlinear_arith);
    }
    let rem: u128 = m - r * two_s;
    let half: u128 = two_s / 2;
    let raised: bool = rem > half || (rem == half && (sticky || r % 2 == 1));
    proof {
        lemma_pow2_adds(p, cut as nat);
        if length < p + cut {
            lemma_pow2_strictly_increases(length, p + cut as nat);
        }
        assert(r < pow2(p)) by (nonlinear_arith)
            requires
                r * two_s <= m,
                m < pow2(p) * two_s,
                two_s > 0,
        ;
        if e > 0 {
            lemma_pow2_adds((p - 1) as nat, cut as nat);
            assert(p - 1 + cut == length - 1);
            assert(r >= pow2((p - 1) as nat)) by (nonlinear_arith)
                requires
                    m == two_s * r + rem,
                    rem < two_s,
                    m >= pow2((p - 1) as nat) * two_s,
                    two_s > 0,
            ;
        }
        lemma_rounded(
            f,
            e as nat,
            r as nat,
            rem as nat,
            two_s as nat,
            up,
            down,
            m as nat,
            sticky,
            n,
            d,
            raised,
        );
        let k = (e as nat * f.binade() + r as nat + if raised { 1int } else { 0 }) as nat;
        lemma_nearest_cut(f, k, n, d);
        lemma2_to64();
        lemma2_to64_rest();
        lemma_pow2_strictly_increases(p, 63);
    }
    let significand: u64 = if raised {
        r as u64 + 1
    } else {
        r as u64
    };
    place(f, e, significand)
}

/// Index of the magnitude nearest to the exact value.
///
/// The value is `m * 2^q` units; with `sticky` some lower bits were dropped,
/// which is harmless as long as `m` carries two more bits than the format.
pub(crate) fn round_scaled(
    f: Format,
    m: u128,
    q: i32,
    sticky: bool,
    Ghost(n): Ghost<nat>,
    Ghost(d): Ghost<nat>,
) -> (k: u64)
    requires
        0 < m,
        m < pow2(120),
        -10000 <= q <= 10000,
        d > 0,
        sticky ==> m >= pow2(f.precision() + 1),
        bracketed(m as nat, q as int, sticky, n, d),
    ensures
        nearest(f, k as nat, n, d),
        k == round_magnitude(f, n, d),
{
    let p: i32 = f.precision_bits() as i32;
    let length: i32 = bit_length(m) as i32;
    proof {
        if length > 121 {
            lemma_pow2_strictly_increases(120, (length - 1) as nat);
        }
        if sticky && length < p + 1 {
            lemma_pow2_strictly_increases(length as nat, (p + 1) as nat);
        }
        assert(length <= 120);
        assert(sticky ==> length > p + 1);
        lemma2_to64();
    }
    // Bits to drop, so that the significand fits and no fraction of a unit stays.
    let s: i32 = if length - p > -q {
        length - p
    } else {
        -q
    };
    let k: u64 = if s <= 0 {
        proof {
            assert(q >= 0);
            assert(!sticky);
            let up = pow2(q as nat);
            assert(n * 1 == n);
            assert(n == m * up * d);
        }
        round_lifted(f, m, (-s) as u32, (q + s) as u32, Ghost(length as nat), Ghost(n), Ghost(d))
    } else if s >= 122 {
        proof {
            assert(s == -q);
            assert(m * 1 == m && (m + 1) * 1 == m + 1);
            if s > 122 {
                lemma_pow2_strictly_increases(122, s as nat);
            }
            lemma_vanishes(f, m as nat, pow2(s as nat), sticky, n, d);
        }
        0
    } else {
        round_dropped(f, m, q, s as u32, sticky, Ghost(length as nat), Ghost(n), Ghost(d))
    };
    proof {
        lemma_round_is(f, k as nat, n, d);
    }
    k
}

/// Index of significand `r` at exponent `e`, cut at infinity.
fn place(f: Format, e: u32, r: u64) -> (k: u64)
    requires
        r <= 2 * f.binade(),
        e == 0 || r >= f.binade(),
    ensures
        k == if e * f.binade() + r < f.infinity() {
            (e * f.binade() + r) as nat
        } else {
            f.infinity()
        },
{
    let b = f.binade_len();
    let top = f.infinity_index();
    if e >= 2047 {
        proof {
            assert(e * f.binade() >= 2047 * f.binade()) by (nonlinear_arith)
                requires
                    e >= 2047,
                    f.binade() >= 0,
            ;
        }
        return top;
    }
    proof {
        assert(e * f.binade() <= 2047 * f.binade()) by (nonlinear_arith)
            requires
                e <= 2047,
                f.binade() >= 0,
        ;
    }
    let k: u64 = e as u64 * b + r;
    if k < top {
        k
    } else {
        top
    }
}

} // verus!
