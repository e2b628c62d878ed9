//! Decimal numerals and the values they denote.

use crate::ieee::big;
use crate::ieee::big::Side;
use crate::ieee::grid;
use crate::ieee::grid::Format;
use crate::ieee::number;
use crate::ieee::number::Number;
use crate::ieee::single::Single;
use crate::text;
use vstd::arithmetic::power::*;
use vstd::arithmetic::power2::*;
use vstd::prelude::*;

verus! {

pub open spec fn is_digit(c: char) -> bool {
    '0' <= c <= '9'
}

pub open spec fn digit_value(c: char) -> nat {
    (c as u32 - 48) as nat
}

/// How many digits stand at the start of the text.
pub open spec fn run(s: Seq<char>) -> nat
    decreases s.len(),
{
    if s.len() > 0 && is_digit(s[0]) {
        1 + run(s.drop_first())
    } else {
        0
    }
}

/// The number that a row of digits writes in base ten.
pub open spec fn digits_value(s: Seq<char>) -> nat
    decreases s.len(),
{
    if s.len() == 0 {
        0
    } else {
        10 * digits_value(s.drop_last()) + digit_value(s.last())
    }
}

/// The power of ten written after the digits: nothing, or an `e` in either
/// case, an optional sign, and at least one digit.
pub open spec fn exponent(s: Seq<char>) -> Option<int> {
    if s.len() == 0 {
        Some(0)
    } else if s[0] == 'e' || s[0] == 'E' {
        let t = s.skip(1);
        let signed = t.len() > 0 && (t[0] == '+' || t[0] == '-');
        let u = if signed {
            t.skip(1)
        } else {
            t
        };
        if u.len() == 0 || run(u) != u.len() {
            None
        } else if signed && t[0] == '-' {
            Some(-(digits_value(u) as int))
        } else {
            Some(digits_value(u) as int)
        }
    } else {
        None
    }
}

/// What follows the point after the leading digits, where there is one.
pub open spec fn fraction(s: Seq<char>) -> Seq<char> {
    let whole = run(s) as int;
    if whole < s.len() && s[whole] == '.' {
        s.skip(whole + 1)
    } else {
        Seq::empty()
    }
}

/// What follows the digits and the point.
pub open spec fn tail(s: Seq<char>) -> Seq<char> {
    let whole = run(s) as int;
    if whole < s.len() && s[whole] == '.' {
        fraction(s).skip(run(fraction(s)) as int)
    } else {
        s.skip(whole)
    }
}

/// Digits with an optional point among them and an optional exponent, as
/// `(d, x)` for the number `d * 10^x`.
pub open spec fn numeral(s: Seq<char>) -> Option<(nat, int)> {
    let whole = run(s) as int;
    let part = run(fraction(s)) as int;
    if whole + part == 0 {
        None
    } else {
        match exponent(tail(s)) {
            None => None,
            Some(e) => Some((digits_value(s.take(whole) + fraction(s).take(part)), e - part)),
        }
    }
}

/// Dividend of `d * 10^x` in units of the smallest subnormal.
pub open spec fn units_over(d: nat, x: int) -> nat {
    if x >= 0 {
        d * pow(10, x as nat) as nat * pow2(149)
    } else {
        d * pow2(149)
    }
}

/// Divisor of `d * 10^x` in units of the smallest subnormal.
pub open spec fn units_under(x: int) -> nat {
    if x >= 0 {
        1
    } else {
        pow(10, (-x) as nat) as nat
    }
}

/// Magnitude nearest to `d * 10^x`, ties to even.
pub open spec fn nearest_index(d: nat, x: int) -> nat {
    grid::round_magnitude(Format::Single, units_over(d, x), units_under(x))
}

pub open spec fn has_sign(s: Seq<char>) -> bool {
    s.len() > 0 && (s[0] == '-' || s[0] == '+')
}

/// The value that a text denotes: an optional sign, then a numeral or one of
/// the words `inf`, `infinity` and `nan` in any case. A numeral denotes the
/// value nearest to it.
pub open spec fn parsed(s: Seq<char>) -> Option<Single> {
    let negative = s.len() > 0 && s[0] == '-';
    let body = if has_sign(s) {
        s.skip(1)
    } else {
        s
    };
    let word = text::lowered_text(body);
    if word == "inf"@ || word == "infinity"@ {
        Some(Single::of(number::infinite(Format::Single, negative)))
    } else if word == "nan"@ {
        Some(Single::of((Number { negative, index: Format::Single.quiet_nan() as u64 })))
    } else {
        match numeral(body) {
            None => None,
            Some((d, x)) => Some(
                Single::of((Number { negative, index: nearest_index(d, x) as u64 })),
            ),
        }
    }
}

proof fn lemma_run(s: Seq<char>, i: int)
    requires
        0 <= i <= s.len(),
        forall|j: int| 0 <= j < i ==> is_digit(s[j]),
        i < s.len() ==> !is_digit(s[i]),
    ensures
        run(s) == i,
    decreases s.len(),
{
    if i > 0 {
        assert(is_digit(s[0]));
        lemma_run(s.drop_first(), i - 1);
    }
}

/// Position after the digits that start at `from`.
pub(crate) fn digits_end(v: &Vec<char>, from: usize) -> (to: usize)
    requires
        from <= v.len(),
    ensures
        from <= to <= v.len(),
        to - from == run(v@.skip(from as int)),
        forall|j: int| from <= j < to ==> is_digit(#[trigger] v@[j]),
{
    let mut i: usize = from;
    while i < v.len() && '0' <= v[i] && v[i] <= '9'
        invariant
            from <= i <= v.len(),
            forall|j: int| from <= j < i ==> is_digit(#[trigger] v@[j]),
        decreases v.len() - i,
    {
        i = i + 1;
    }
    proof {
        lemma_run(v@.skip(from as int), i - from);
    }
    i
}

/// The number that decimal digits write, the most significant first.
pub open spec fn number_of(s: Seq<u8>) -> nat
    decreases s.len(),
{
    if s.len() == 0 {
        0
    } else {
        10 * number_of(s.drop_last()) + s.last() as nat
    }
}

/// Digits without leading zeros.
pub open spec fn significant(s: Seq<u8>) -> bool {
    &&& s.len() > 0 ==> s[0] > 0
    &&& forall|i: int| 0 <= i < s.len() ==> s[i] <= 9
}

proof fn lemma_ten_power(i: nat)
    ensures
        pow(10, i + 1) == 10 * pow(10, i),
        pow(10, i) > 0,
        pow(10, 0) == 1,
{
    reveal(pow);
    lemma_pow_positive(10, i);
}

proof fn lemma_number_bounds(s: Seq<u8>)
    requires
        significant(s),
    ensures
        number_of(s) < pow(10, s.len()),
        s.len() > 0 ==> number_of(s) >= pow(10, (s.len() - 1) as nat),
    decreases s.len(),
{
    lemma_ten_power(0);
    if s.len() > 0 {
        let t = s.drop_last();
        assert(t.len() > 0 ==> t[0] == s[0]);
        lemma_number_bounds(t);
        lemma_ten_power(t.len());
        if t.len() > 0 {
            lemma_ten_power((t.len() - 1) as nat);
        }
    }
}

/// Appends the digits `from..to` of the text, dropping leading zeros.
fn take_digits(v: &Vec<char>, from: usize, to: usize, digits: &mut Vec<u8>, Ghost(before): Ghost<Seq<char>>)
    requires
        from <= to <= v.len(),
        forall|j: int| from <= j < to ==> is_digit(#[trigger] v@[j]),
        significant(old(digits)@),
        number_of(old(digits)@) == digits_value(before),
        old(digits).len() <= before.len(),
    ensures
        significant(final(digits)@),
        number_of(final(digits)@) == digits_value(before + v@.subrange(from as int, to as int)),
        final(digits).len() <= before.len() + (to - from),
{
    let mut i: usize = from;
    proof {
        assert(before + v@.subrange(from as int, from as int) =~= before);
    }
    while i < to
        invariant
            from <= i <= to <= v.len(),
            forall|j: int| from <= j < to ==> is_digit(#[trigger] v@[j]),
            significant(digits@),
            number_of(digits@) == digits_value(before + v@.subrange(from as int, i as int)),
            digits.len() <= before.len() + (i - from),
        decreases to - i,
    {
        let c = v[i];
        assert(is_digit(v@[i as int]));
        let d: u8 = c as u8 - 48;
        let ghost old_digits = digits@;
        proof {
            let all = before + v@.subrange(from as int, i + 1);
            assert(all.drop_last() =~= before + v@.subrange(from as int, i as int));
            assert(all.last() == c);
            assert(old_digits.push(d).drop_last() =~= old_digits);
        }
        if digits.len() > 0 || d > 0 {
            digits.push(d);
        }
        i = i + 1;
    }
}

/// Largest exponent told apart; beyond it every value is infinite or zero.
pub const FAR: i128 = 1_000_000_000_000_000_000_000_000_000_000;

/// `e` cut to the range between `-FAR` and `FAR`.
pub open spec fn near(e: int) -> int {
    if e > FAR {
        FAR as int
    } else if e < -FAR {
        -FAR as int
    } else {
        e
    }
}

/// The number that the digits `from..to` write, cut at [`FAR`].
pub(crate) fn capped_number(v: &Vec<char>, from: usize, to: usize) -> (r: i128)
    requires
        from <= to <= v.len(),
        forall|j: int| from <= j < to ==> is_digit(#[trigger] v@[j]),
    ensures
        r == near(digits_value(v@.subrange(from as int, to as int)) as int),
        0 <= r,
{
    let mut r: i128 = 0;
    let mut i: usize = from;
    while i < to
        invariant
            from <= i <= to <= v.len(),
            forall|j: int| from <= j < to ==> is_digit(#[trigger] v@[j]),
            r == near(digits_value(v@.subrange(from as int, i as int)) as int),
            0 <= r <= FAR,
        decreases to - i,
    {
        let c = v[i];
        assert(is_digit(v@[i as int]));
        let d: i128 = (c as u8 - 48) as i128;
        proof {
            let all = v@.subrange(from as int, i + 1);
            assert(all.drop_last() =~= v@.subrange(from as int, i as int));
            assert(all.last() == c);
        }
        let t: i128 = r * 10 + d;
        r = if t > FAR {
            FAR
        } else {
            t
        };
        i = i + 1;
    }
    r
}

/// [`exponent`] of the text from `from` on, cut to the range of [`near`].
fn read_exponent(v: &Vec<char>, from: usize) -> (r: Option<i128>)
    requires
        from <= v.len(),
    ensures
        match (exponent(v@.skip(from as int)), r) {
            (None, None) => true,
            (Some(e), Some(x)) => x == near(e),
            _ => false,
        },
{
    let n = v.len();
    let ghost s = v@.skip(from as int);
    if from == n {
        return Some(0);
    }
    if v[from] != 'e' && v[from] != 'E' {
        return None;
    }
    let signed = from + 1 < n && (v[from + 1] == '+' || v[from + 1] == '-');
    let start: usize = if signed {
        from + 2
    } else {
        from + 1
    };
    let ghost t = s.skip(1);
    let ghost u = v@.skip(start as int);
    proof {
        assert(t =~= v@.skip(from + 1));
        assert(signed ==> t.skip(1) =~= u);
        assert(!signed ==> t =~= u);
    }
    let end = digits_end(v, start);
    if start == n || end != n {
        return None;
    }
    let value = capped_number(v, start, n);
    proof {
        assert(u =~= v@.subrange(start as int, n as int));
    }
    if signed && v[from + 1] == '-' {
        Some(-value)
    } else {
        Some(value)
    }
}

proof fn lemma_big_powers()
    ensures
        pow(10, 40) >= pow2(132),
        pow(10, 51) > pow2(150),
{
    lemma2_to64();
    lemma2_to64_rest();
    assert(pow(10, 10) == 10_000_000_000) by {
        reveal_with_fuel(pow, 11);
    }
    let t = pow(10, 10);
    let p = pow2(33);
    lemma_pow_adds(10, 10, 10);
    lemma_pow_adds(10, 20, 20);
    lemma_pow_adds(10, 40, 10);
    lemma_pow_adds(10, 50, 1);
    lemma_pow1(10);
    lemma_pow2_adds(33, 33);
    lemma_pow2_adds(66, 66);
    lemma_pow2_adds(132, 33);
    lemma_pow2_strictly_increases(150, 165);
    lemma_pow2_pos(66);
    lemma_pow2_pos(132);
    assert(t * t >= p * p) by (nonlinear_arith)
        requires
            t >= p,
            p > 0,
    ;
    let t2 = pow(10, 20);
    let p2 = pow2(66);
    assert(t2 * t2 >= p2 * p2) by (nonlinear_arith)
        requires
            t2 >= p2,
            p2 > 0,
    ;
    let t4 = pow(10, 40);
    let p4 = pow2(132);
    assert(t4 * t >= p4 * p) by (nonlinear_arith)
        requires
            t4 >= p4,
            t >= p,
            p4 > 0,
            p > 0,
    ;
}

proof fn lemma_units_under(x: int)
    ensures
        units_under(x) > 0,
{
    if x < 0 {
        lemma_ten_power((-x) as nat);
    }
}

/// A number of at least forty-one places before the point is beyond the range.
proof fn lemma_too_large(d: nat, x: int, len: nat)
    requires
        len > 0,
        d >= pow(10, (len - 1) as nat),
        len + x > 40,
    ensures
        nearest_index(d, x) == Format::Single.infinity(),
{
    let over = units_over(d, x);
    let under = units_under(x);
    let f = Format::Single;
    let top = f.infinity();
    let j = (len - 1 + x) as nat;
    let t = pow(10, 40);
    let u = pow2(149);
    lemma_units_under(x);
    lemma_big_powers();
    lemma_pow_increases(10, 40, j);
    lemma_pow2_pos(149);
    assert(over >= t * under * u) by {
        if x >= 0 {
            let p = pow(10, x as nat);
            lemma_pow_adds(10, (len - 1) as nat, x as nat);
            lemma_ten_power(x as nat);
            assert(d * p >= pow(10, (len - 1) as nat) * p) by (nonlinear_arith)
                requires
                    d >= pow(10, (len - 1) as nat),
                    p > 0,
            ;
            assert(d * p >= t * 1);
            assert((d * p) * u >= (t * 1) * u) by (nonlinear_arith)
                requires
                    d * p >= t * 1,
                    u > 0,
            ;
            assert(d * pow(10, x as nat) as nat == d * p);
        } else {
            lemma_pow_adds(10, j, (-x) as nat);
            lemma_ten_power((-x) as nat);
            assert(j + (-x) as nat == (len - 1) as nat);
            assert(d >= t * under) by (nonlinear_arith)
                requires
                    d >= pow(10, j) * under,
                    pow(10, j) >= t,
                    under > 0,
            ;
            assert(d * u >= (t * under) * u) by (nonlinear_arith)
                requires
                    d >= t * under,
                    u > 0,
            ;
        }
    }
    lemma_pow2_adds(132, 149);
    lemma_pow2_adds(23, 254);
    lemma_pow2_strictly_increases(277, 281);
    lemma2_to64();
    assert(grid::units(f, top) == pow2(277)) by {
        assert(top / f.binade() == 255);
        assert(top % f.binade() == 0);
        assert((f.binade() + 0) * pow2(254) == pow2(277));
    }
    grid::lemma_units_step(f, (top - 1) as nat);
    let low = grid::twice_midpoint(f, (top - 1) as nat);
    let cap = pow2(281);
    assert(low < 2 * cap);
    assert(t * under * u >= cap * under) by (nonlinear_arith)
        requires
            t >= pow2(132),
            cap == pow2(132) * u,
            u > 0,
            under > 0,
    ;
    assert(low * under < 2 * over) by (nonlinear_arith)
        requires
            low < 2 * cap,
            over >= cap * under,
            under > 0,
    ;
    assert(grid::nearest(f, top, over, under));
    grid::lemma_round_is(f, top, over, under);
}

/// A number whose first digit is past the fiftieth place after the point
/// rounds to zero.
proof fn lemma_too_small(d: nat, x: int, len: nat)
    requires
        d < pow(10, len),
        len + x < -50,
    ensures
        nearest_index(d, x) == 0,
{
    let f = Format::Single;
    let over = units_over(d, x);
    let under = units_under(x);
    let u = pow2(149);
    let p = pow(10, len);
    let t = pow(10, 51);
    lemma_units_under(x);
    lemma_big_powers();
    lemma_pow_adds(10, len, 51);
    lemma_pow_increases(10, len + 51, (-x) as nat);
    lemma_pow2_unfold(150);
    lemma_ten_power(len);
    lemma_pow2_pos(149);
    assert(2 * (d * u) < p * t) by (nonlinear_arith)
        requires
            d < p,
            2 * u < t,
            d >= 0,
            u > 0,
            p > 0,
    ;
    assert(grid::twice_midpoint(f, 0) == 1);
    assert(1 * under == under);
    assert(grid::nearest(f, 0, over, under));
    grid::lemma_round_is(f, 0, over, under);
}

/// The digits as one machine word.
fn word_of(digits: &Vec<u8>) -> (r: u64)
    requires
        significant(digits@),
        digits.len() <= 19,
    ensures
        r == number_of(digits@),
{
    let mut r: u64 = 0;
    let mut i: usize = 0;
    proof {
        assert(digits@.take(0) =~= Seq::<u8>::empty());
        assert(pow(10, 19) == 10_000_000_000_000_000_000) by {
            reveal_with_fuel(pow, 20);
        }
    }
    while i < digits.len()
        invariant
            i <= digits.len() <= 19,
            significant(digits@),
            r == number_of(digits@.take(i as int)),
            pow(10, 19) == 10_000_000_000_000_000_000,
        decreases digits.len() - i,
    {
        proof {
            let next = digits@.take(i + 1);
            assert(next.drop_last() =~= digits@.take(i as int));
            assert(significant(next));
            lemma_number_bounds(next);
            lemma_pow_increases(10, (i + 1) as nat, 19);
        }
        r = 10 * r + digits[i] as u64;
        i = i + 1;
    }
    proof {
        assert(digits@.take(i as int) =~= digits@);
    }
    r
}

/// `10^j`, for the powers that fit a word.
fn ten_to(j: u32) -> (r: u64)
    requires
        j <= 19,
    ensures
        r == pow(10, j as nat),
{
    let mut r: u64 = 1;
    let mut i: u32 = 0;
    proof {
        lemma_ten_power(0);
        assert(pow(10, 19) == 10_000_000_000_000_000_000) by {
            reveal_with_fuel(pow, 20);
        }
    }
    while i < j
        invariant
            i <= j <= 19,
            r == pow(10, i as nat),
            pow(10, 19) == 10_000_000_000_000_000_000,
        decreases j - i,
    {
        proof {
            lemma_ten_power(i as nat);
            lemma_pow_increases(10, (i + 1) as nat, 19);
        }
        r = r * 10;
        i = i + 1;
    }
    r
}

/// Rounds `d * 10^x` where one word holds the digits and another the power.
fn round_word(d: u64, x: i32) -> (k: u64)
    requires
        d > 0,
        -19 <= x <= 16,
    ensures
        k == nearest_index(d as nat, x as int),
        k <= Format::Single.infinity(),
{
    let f = Format::Single;
    let ghost over = units_over(d as nat, x as int);
    let ghost under = units_under(x as int);
    proof {
        lemma_units_under(x as int);
        lemma2_to64();
        lemma2_to64_rest();
    }
    if x >= 0 {
        let p = ten_to(x as u32);
        proof {
            lemma_ten_power(x as nat);
            lemma_pow_increases(10, x as nat, 16);
            assert(pow(10, 16) == 10_000_000_000_000_000) by {
                reveal_with_fuel(pow, 17);
            }
            lemma_pow2_adds(64, 54);
            lemma_pow2_strictly_increases(118, 120);
            assert(d * p < pow2(118)) by (nonlinear_arith)
                requires
                    d < 0x1_0000_0000_0000_0000,
                    0 < p <= 10_000_000_000_000_000,
                    pow2(118) == 0x1_0000_0000_0000_0000 * 0x40_0000_0000_0000,
            ;
            assert(d * p > 0) by (nonlinear_arith)
                requires
                    d > 0,
                    p > 0,
            ;
        }
        let m: u128 = d as u128 * p as u128;
        proof {
            assert(over * 1 == m * pow2(149) * 1);
        }
        grid::round_scaled(f, m, 149, false, Ghost(over), Ghost(under))
    } else {
        let p = ten_to((-x) as u32);
        let length = grid::bit_length(d as u128);
        proof {
            lemma_ten_power((-x) as nat);
            if length > 65 {
                lemma_pow2_strictly_increases(64, (length - 1) as nat);
            }
            assert(length <= 64) by {
                if length == 65 {
                    assert(pow2(64) <= d);
                }
            }
        }
        let lift: u32 = 119 - length;
        let ghost pl = pow2(lift as nat);
        proof {
            lemma_pow2_adds(length as nat, lift as nat);
            lemma_pow2_adds((length - 1) as nat, lift as nat);
            lemma_pow2_pos(lift as nat);
            lemma_pow2_strictly_increases(119, 120);
            lemma_pow2_adds(64, 54);
            lemma_pow2_adds(64, 55);
            lemma_pow2_strictly_increases(25, 54);
            assert(d * pl < pow2(119)) by (nonlinear_arith)
                requires
                    d < pow2(length as nat),
                    pl > 0,
                    pow2(119) == pow2(length as nat) * pl,
            ;
            assert(d * pl >= pow2(118)) by (nonlinear_arith)
                requires
                    d >= pow2((length - 1) as nat),
                    pl > 0,
                    pow2(118) == pow2((length - 1) as nat) * pl,
            ;
        }
        let wide: u128 = d as u128 * grid::power_of_two(lift);
        let m: u128 = wide / p as u128;
        let rem: u128 = wide % p as u128;
        let q: i32 = 149 - lift as i32;
        let sticky = rem != 0;
        proof {
            vstd::arithmetic::div_mod::lemma_fundamental_div_mod(wide as int, p as int);
            assert(m <= wide) by (nonlinear_arith)
                requires
                    wide == p * m + rem,
                    p >= 1,
                    rem >= 0,
                    m >= 0,
            ;
            assert(m >= pow2(54)) by (nonlinear_arith)
                requires
                    wide == p * m + rem,
                    rem < p,
                    p < 0x1_0000_0000_0000_0000,
                    wide >= pow2(54) * 0x1_0000_0000_0000_0000,
            ;
            assert(d * 1 * pow2(149) == over);
            assert(p * 1 == under);
            number::lemma_quotient_bracket(d as nat, 0, p as nat, 0, 149, lift as nat, m as nat, rem as nat, q as int, over, under);
        }
        grid::round_scaled(f, m, q, sticky, Ghost(over), Ghost(under))
    }
}

/// The digits as a number of any size.
fn big_of(digits: &Vec<u8>) -> (r: Vec<u32>)
    ensures
        big::value(r@) == number_of(digits@),
{
    let mut r: Vec<u32> = Vec::new();
    let mut i: usize = 0;
    proof {
        assert(digits@.take(0) =~= Seq::<u8>::empty());
    }
    while i < digits.len()
        invariant
            i <= digits.len(),
            big::value(r@) == number_of(digits@.take(i as int)),
        decreases digits.len() - i,
    {
        proof {
            assert(digits@.take(i + 1).drop_last() =~= digits@.take(i as int));
        }
        r = big::times_plus(&r, 10, digits[i] as u32);
        i = i + 1;
    }
    proof {
        assert(digits@.take(i as int) =~= digits@);
    }
    r
}

/// Whether `over / under` units reach the magnitude `k`.
fn reaches_index(k: u64, double: &Vec<u32>, under: &Vec<u32>, Ghost(n): Ghost<nat>) -> (b: bool)
    requires
        0 < k <= Format::Single.infinity(),
        big::value(double@) == 2 * n,
    ensures
        b == grid::reaches(Format::Single, k as nat, n, big::value(under@)),
{
    let f = Format::Single;
    let (m, e) = number::split(f, k - 1);
    let ghost d = big::value(under@);
    proof {
        let b = f.binade();
        let j = (k - 1) as nat;
        grid::lemma_units_at(f, e as nat, (m + 1) as nat);
        assert(k == e * b + (m + 1));
        let p = pow2(e as nat);
        assert(grid::twice_midpoint(f, j) == (2 * m + 1) * p) by (nonlinear_arith)
            requires
                grid::twice_midpoint(f, j) == m * p + (m + 1) * p,
        ;
        assert(d * (2 * m + 1) * p == ((2 * m + 1) * p) * d) by (nonlinear_arith);
    }
    let odd: u32 = 2 * m as u32 + 1;
    let low = big::times_two(big::times_plus(under, odd, 0), e as u32);
    match big::side(&low, double) {
        Side::Below => true,
        Side::Same => k % 2 == 0,
        Side::Above => false,
    }
}

/// Rounds `d * 10^x` by comparing with the midpoints between magnitudes.
fn round_big(digits: &Vec<u8>, x: i128) -> (k: u64)
    requires
        -2 * FAR <= x <= 2 * FAR,
    ensures
        k == nearest_index(number_of(digits@), x as int),
        k <= Format::Single.infinity(),
{
    let f = Format::Single;
    let ghost d = number_of(digits@);
    let ghost n = units_over(d, x as int);
    let ghost under_value = units_under(x as int);
    let (up, down): (u128, u128) = if x >= 0 {
        (x as u128, 0)
    } else {
        (0, (-x) as u128)
    };
    let over = big::times_two(big::times_ten(big_of(digits), up), 150);
    let mut one: Vec<u32> = Vec::new();
    one.push(1);
    proof {
        reveal_with_fuel(big::value, 2);
        lemma2_to64();
        lemma_pow0(10);
        assert(one@.drop_last() =~= Seq::<u32>::empty());
        assert(big::value(one@) == 1);
        lemma_units_under(x as int);
    }
    let under = big::times_ten(one, down);
    proof {
        assert(1 * pow(10, down as nat) == pow(10, down as nat));
        assert(big::value(under@) == under_value);
        lemma_pow2_unfold(150);
        let t = d * pow(10, up as nat);
        assert(t * (2 * pow2(149)) == 2 * (t * pow2(149))) by (nonlinear_arith);
        if x < 0 {
            assert(d * 1 == d);
        }
        lemma_ten_power(up as nat);
        assert(big::value(over@) == 2 * n);
    }
    let top = f.infinity_index();
    let mut low: u64 = 0;
    let mut high: u64 = top + 1;
    while high - low > 1
        invariant
            f == Format::Single,
            top == f.infinity(),
            low < high <= top + 1,
            big::value(over@) == 2 * n,
            big::value(under@) == under_value,
            grid::reaches(f, low as nat, n, under_value),
            high <= top ==> !grid::reaches(f, high as nat, n, under_value),
        decreases high - low,
    {
        let middle: u64 = low + (high - low) / 2;
        if reaches_index(middle, &over, &under, Ghost(n)) {
            low = middle;
        } else {
            high = middle;
        }
    }
    proof {
        assert(grid::nearest(f, low as nat, n, under_value));
        grid::lemma_round_is(f, low as nat, n, under_value);
    }
    low
}

/// Rounds the number with the given digits times `10^x`; an exponent far out
/// of range may be given by any other one as far out.
fn round_digits(digits: &Vec<u8>, x: i128, Ghost(exact): Ghost<int>) -> (k: u64)
    requires
        significant(digits@),
        x == exact || (x > FAR / 2 && exact > FAR / 2) || (x < -(FAR / 2) && exact < -(FAR / 2)),
        -2 * FAR <= x <= 2 * FAR,
    ensures
        k == nearest_index(number_of(digits@), exact),
        k <= Format::Single.infinity(),
{
    let f = Format::Single;
    let length: i128 = digits.len() as i128;
    let ghost d = number_of(digits@);
    proof {
        lemma_number_bounds(digits@);
        lemma_units_under(exact);
    }
    if length == 0 {
        proof {
            assert(0 * pow2(149) == 0);
            if exact >= 0 {
                assert(0 * pow(10, exact as nat) as nat == 0);
            }
            number::lemma_round_zero(f, units_under(exact));
        }
        return 0;
    }
    if length + x > 40 {
        proof {
            lemma_too_large(d, exact, digits@.len());
        }
        return f.infinity_index();
    }
    if length + x < -50 {
        proof {
            lemma_too_small(d, exact, digits@.len());
        }
        return 0;
    }
    if length <= 19 && -19 <= x && x <= 16 {
        proof {
            lemma_ten_power((length - 1) as nat);
        }
        round_word(word_of(digits), x as i32)
    } else {
        round_big(digits, x)
    }
}

/// Ends of the leading digits, of the point and of the digits after it.
fn numeral_parts(v: &Vec<char>, from: usize) -> (r: (usize, usize, usize))
    requires
        from <= v.len(),
    ensures
        from <= r.0 <= r.1 <= r.2 <= v.len(),
        ({
            let s = v@.skip(from as int);
            let part = run(fraction(s)) as int;
            &&& run(s) == r.0 - from
            &&& part == r.2 - r.1
            &&& s.take(r.0 - from) == v@.subrange(from as int, r.0 as int)
            &&& fraction(s).take(part) == v@.subrange(r.1 as int, r.2 as int)
            &&& tail(s) == v@.skip(r.2 as int)
        }),
        forall|j: int| from <= j < r.0 ==> is_digit(#[trigger] v@[j]),
        forall|j: int| r.1 <= j < r.2 ==> is_digit(#[trigger] v@[j]),
{
    let whole = digits_end(v, from);
    let ghost s = v@.skip(from as int);
    proof {
        assert(s.take(whole - from) =~= v@.subrange(from as int, whole as int));
    }
    if whole < v.len() && v[whole] == '.' {
        let end = digits_end(v, whole + 1);
        proof {
            assert(s[whole - from] == '.');
            assert(fraction(s) =~= v@.skip(whole + 1));
            assert(fraction(s).take(end - whole - 1) =~= v@.subrange(whole + 1, end as int));
            assert(fraction(s).skip(end - whole - 1) =~= v@.skip(end as int));
        }
        (whole, whole + 1, end)
    } else {
        proof {
            assert(whole < v.len() ==> s[whole - from] == v@[whole as int]);
            assert(fraction(s) =~= Seq::empty());
            assert(run(Seq::<char>::empty()) == 0);
            assert(fraction(s).take(0) =~= v@.subrange(whole as int, whole as int));
            assert(tail(s) =~= v@.skip(whole as int));
        }
        (whole, whole, whole)
    }
}

/// Reads a [`numeral`] and rounds it.
fn read_numeral(v: &Vec<char>, from: usize) -> (r: Option<u64>)
    requires
        from <= v.len(),
    ensures
        match (numeral(v@.skip(from as int)), r) {
            (None, None) => true,
            (Some((d, x)), Some(k)) => k == nearest_index(d, x) && k <= Format::Single.infinity(),
            _ => false,
        },
{
    let (whole, start, end) = numeral_parts(v, from);
    if whole == from && end == start {
        return None;
    }
    let e: i128 = match read_exponent(v, end) {
        None => {
            return None;
        },
        Some(e) => e,
    };
    let mut digits: Vec<u8> = Vec::new();
    take_digits(v, from, whole, &mut digits, Ghost(Seq::empty()));
    let ghost first = v@.subrange(from as int, whole as int);
    proof {
        assert(Seq::<char>::empty() + first =~= first);
    }
    take_digits(v, start, end, &mut digits, Ghost(first));
    let ghost exact = exponent(v@.skip(end as int))->Some_0;
    let part: i128 = (end - start) as i128;
    Some(round_digits(&digits, e - part, Ghost(exact - part)))
}

/// Whether the characters from `from` on, in lower case, spell `word`.
fn spells_lowered(v: &Vec<char>, from: usize, word: &str) -> (b: bool)
    requires
        from <= v.len(),
    ensures
        b == (text::lowered_text(v@.skip(from as int)) == word@),
{
    let mut w: Vec<char> = Vec::new();
    let ghost rest = v@.skip(from as int);
    let mut i: usize = from;
    while i < v.len()
        invariant
            from <= i <= v.len(),
            rest == v@.skip(from as int),
            w@ == text::lowered_text(rest).take(i - from),
        decreases v.len() - i,
    {
        w.push(text::lower(v[i]));
        i = i + 1;
        proof {
            let all = text::lowered_text(rest);
            assert(all.take(i - from) =~= all.take(i - 1 - from).push(all[i - 1 - from]));
        }
    }
    let n = w.len();
    proof {
        assert(text::lowered_text(rest).take(i - from) =~= text::lowered_text(rest));
        assert(w@.subrange(0, n as int) =~= w@);
    }
    text::spells(&w, 0, n, word)
}

/// Reads a value; see [`parsed`].
pub fn parse_single(v: &Vec<char>) -> (r: Option<Single>)
    ensures
        r == parsed(v@),
{
    let negative = v.len() > 0 && v[0] == '-';
    let from: usize = if v.len() > 0 && (v[0] == '-' || v[0] == '+') {
        1
    } else {
        0
    };
    let ghost body = v@.skip(from as int);
    proof {
        assert(v@.skip(0) =~= v@);
    }
    if spells_lowered(v, from, "inf") || spells_lowered(v, from, "infinity") {
        return Some(Single::from_number(Number { negative, index: 0x7f80_0000 }));
    }
    if spells_lowered(v, from, "nan") {
        return Some(Single::from_number(Number { negative, index: 0x7fc0_0000 }));
    }
    match read_numeral(v, from) {
        None => None,
        Some(index) => Some(Single::from_number(Number { negative, index })),
    }
}

} // verus!
