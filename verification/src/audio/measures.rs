//! What is measured on samples, told by the samples alone.

use crate::audio::decode;
use crate::audio::order;
use crate::audio::rising::exact_total;
use crate::audio::signal;
use crate::audio::sync;
use crate::audio::waveform;
use crate::audio::AudioTrack;
use crate::color::drift;
use crate::color::drift::{grain, quarter, units_of, whole, within};
use crate::color::lut::identity::close;
use crate::ieee::grid;
use crate::ieee::grid::Format;
use crate::ieee::laws;
use crate::ieee::single::Single;
use vstd::arithmetic::div_mod::*;
use vstd::arithmetic::power2::*;
use vstd::prelude::*;

verus! {

/// Where the least and the greatest sample come from.
proof fn lemma_ends_are_samples(s: Seq<Single>)
    ensures
        waveform::least(s) == (Single { bits: 0x7f7f_ffff }) || exists|i: int|
            0 <= i < s.len() && waveform::least(s) == #[trigger] s[i],
        waveform::greatest(s) == (Single { bits: 0xff7f_ffff }) || exists|i: int|
            0 <= i < s.len() && waveform::greatest(s) == #[trigger] s[i],
    decreases s.len(),
{
    if s.len() > 0 {
        let t = s.drop_last();
        lemma_ends_are_samples(t);
        assert(s.last() == s[s.len() - 1]);
        if exists|i: int| 0 <= i < t.len() && waveform::least(t) == #[trigger] t[i] {
            let i = choose|i: int| 0 <= i < t.len() && waveform::least(t) == #[trigger] t[i];
            assert(t[i] == s[i]);
        }
        if exists|i: int| 0 <= i < t.len() && waveform::greatest(t) == #[trigger] t[i] {
            let i = choose|i: int| 0 <= i < t.len() && waveform::greatest(t) == #[trigger] t[i];
            assert(t[i] == s[i]);
        }
    }
}

/// A peak is no wider than its samples: both its ends are reached by some of them.
pub proof fn law_peak_is_reached(s: Seq<Single>)
    requires
        s.len() > 0,
        forall|i: int| 0 <= i < s.len() ==> laws::is_finite(#[trigger] s[i]),
    ensures
        exists|i: int| 0 <= i < s.len() && waveform::peak_of(s).0.equals(#[trigger] s[i]),
        exists|i: int| 0 <= i < s.len() && waveform::peak_of(s).1.equals(#[trigger] s[i]),
{
    assert(laws::is_finite(s[0]));
    waveform::law_peak_bounds(s, 0);
    lemma_ends_are_samples(s);
    let (low, high) = waveform::peak_of(s);
    let (top, bottom) = (Single { bits: 0x7f7f_ffff }, Single { bits: 0xff7f_ffff });
    if low == top {
        assert(top.number().index == 0x7f7f_ffff && !top.number().negative);
        assert(low.equals(s[0]));
    } else {
        let i = choose|i: int| 0 <= i < s.len() && low == #[trigger] s[i];
        assert(laws::is_finite(s[i]));
        assert(low.equals(s[i]));
    }
    if high == bottom {
        assert(bottom.number().index == 0x7f7f_ffff && bottom.number().negative);
        assert(high.equals(s[0]));
    } else {
        let i = choose|i: int| 0 <= i < s.len() && high == #[trigger] s[i];
        assert(laws::is_finite(s[i]));
        assert(high.equals(s[i]));
    }
}

/// The waveform holds as many buckets as the frames fill, the last of them perhaps
/// in part, and both ends of each are reached by samples of the bucket's own frames.
pub proof fn law_waveform_buckets(track: AudioTrack, samples_per_bucket: usize, b: nat)
    requires
        samples_per_bucket > 0,
        b < track.peaks_in(samples_per_bucket).len(),
        forall|i: int| 0 <= i < track.samples@.len() ==> laws::is_finite(#[trigger] track.samples@[i]),
    ensures
        ({
            let peaks = track.peaks_in(samples_per_bucket);
            let (size, ch) = (samples_per_bucket as int, track.channels as int);
            let first = (b * size) * ch;
            let end = if (b + 1) * size < track.frames() {
                ((b + 1) * size) * ch
            } else {
                track.frames() * ch
            };
            &&& track.frames() <= peaks.len() * size < track.frames() + size
            &&& exists|i: int|
                first <= i < end && peaks[b as int].0.equals(#[trigger] track.samples@[i])
            &&& exists|i: int|
                first <= i < end && peaks[b as int].1.equals(#[trigger] track.samples@[i])
        }),
{
    let (size, ch, total) = (samples_per_bucket as nat, track.channels as nat, track.frames());
    let n = track.samples@.len();
    waveform::lemma_divided_up(total, size);
    let count = waveform::divided_up(total, size);
    let first = b * size;
    let end = waveform::bucket_end(first, size, total);
    assert((b + 1) * size == first + size) by (nonlinear_arith)
        requires
            first == b * size,
    ;
    assert(first < total) by (nonlinear_arith)
        requires
            b + 1 <= count,
            count * size < total + size,
            first == b * size,
            size > 0,
    ;
    lemma_fundamental_div_mod(n as int, ch as int);
    lemma_mod_bound(n as int, ch as int);
    assert(total * ch <= n) by (nonlinear_arith)
        requires
            n == ch * total + n as int % ch as int,
            n as int % ch as int >= 0,
    ;
    assert(first * ch + ch <= end * ch && end * ch <= total * ch) by (nonlinear_arith)
        requires
            first + 1 <= end,
            end <= total,
    ;
    let part = waveform::bucket(&track, size, b);
    assert(part == track.samples@.subrange((first * ch) as int, (end * ch) as int));
    assert forall|i: int| 0 <= i < part.len() implies laws::is_finite(#[trigger] part[i]) by {
        assert(part[i] == track.samples@[first * ch + i]);
    }
    law_peak_is_reached(part);
    let peak = track.peaks_in(samples_per_bucket)[b as int];
    assert(peak == waveform::peak_of(part));
    let i = choose|i: int| 0 <= i < part.len() && peak.0.equals(#[trigger] part[i]);
    assert(part[i] == track.samples@[first * ch + i]);
    let j = choose|j: int| 0 <= j < part.len() && peak.1.equals(#[trigger] part[j]);
    assert(part[j] == track.samples@[first * ch + j]);
}

/// How many samples are below a value.
pub open spec fn below(s: Seq<Single>, v: Single) -> nat
    decreases s.len(),
{
    if s.len() == 0 {
        0
    } else {
        below(s.drop_last(), v) + if s.last().less(v) {
            1nat
        } else {
            0nat
        }
    }
}

/// How many samples are above a value.
pub open spec fn above(s: Seq<Single>, v: Single) -> nat
    decreases s.len(),
{
    if s.len() == 0 {
        0
    } else {
        above(s.drop_last(), v) + if v.less(s.last()) {
            1nat
        } else {
            0nat
        }
    }
}

proof fn lemma_counts(s: Seq<Single>, v: Single)
    requires
        order::all_numbers(s),
        !v.nan(),
    ensures
        below(s, v) == order::count_to(s, v.rank() - 1),
        above(s, v) == s.len() - order::count_to(s, v.rank()),
    decreases s.len(),
{
    if s.len() > 0 {
        let t = s.drop_last();
        assert forall|i: int| 0 <= i < t.len() implies !(#[trigger] t[i]).nan() by {
            assert(t[i] == s[i]);
        }
        lemma_counts(t, v);
        assert(s.last() == s[s.len() - 1] && !s[s.len() - 1].nan());
    }
}

/// Sorting decides: the sample at place `k` is one of the samples, no more than `k`
/// are below it, and no more than are left are above it.
pub proof fn law_places_split_the_samples(s: Seq<Single>, k: nat)
    requires
        order::all_numbers(s),
        k < s.len(),
    ensures
        s.contains(order::kth(s, k)),
        below(s, order::kth(s, k)) <= k,
        above(s, order::kth(s, k)) <= s.len() - 1 - k,
{
    order::lemma_place_exists(s, k);
    let i = choose|i: int| #[trigger] order::sorts_to(s, i, k);
    let v = s[i];
    assert(!s[i].nan());
    lemma_counts(s, v);
    order::lemma_place_counted(s, i, k);
}

/// The median has at most half of the samples on either side of it.
pub proof fn law_median_is_the_middle(s: Seq<Single>)
    requires
        order::all_numbers(s),
        s.len() > 0,
    ensures
        s.contains(order::median(s)),
        2 * below(s, order::median(s)) <= s.len(),
        2 * above(s, order::median(s)) <= s.len(),
{
    law_places_split_the_samples(s, (s.len() / 2) as nat);
}

/// Samples from -1 to 1.
pub open spec fn full_scale(s: Seq<Single>) -> bool {
    forall|i: int| 0 <= i < s.len() ==> within(#[trigger] s[i], -4, 4)
}

/// Adding up is off by little.
pub(crate) proof fn lemma_total(s: Seq<Single>)
    requires
        full_scale(s),
        s.len() <= 2000,
    ensures
        within(signal::total(s), -(4 * s.len() as int), 4 * s.len() as int),
        close(
            units_of(signal::total(s)),
            exact_total(s),
            (2 * (s.len() * (s.len() + 1))) * grain(),
        ),
    decreases s.len(),
{
    let (q, g) = (quarter(), grain());
    let n = s.len() as int;
    drift::lemma_measures();
    if n == 0 {
        let none = Single { bits: signal::NOTHING };
        assert(units_of(none) == 0) by {
            reveal(units_of);
            assert(grid::units(Format::Single, 0) == 0);
        }
        assert(0 * q == 0 && -0 * q == 0 && (2 * (0 * (0 + 1))) * g == 0);
    } else {
        let t = s.drop_last();
        assert forall|i: int| 0 <= i < t.len() implies within(#[trigger] t[i], -4, 4) by {
            assert(t[i] == s[i]);
        }
        lemma_total(t);
        let (x, y) = (signal::total(t), s.last());
        assert(y == s[n - 1]);
        assert((4 * n) * q == (4 * (n - 1)) * q + 4 * q && -(4 * n) * q == -(4 * (n - 1)) * q - 4 * q)
            by (nonlinear_arith);
        drift::lemma_plus(x, y, -(4 * n), 4 * n, 4 * n);
        assert((2 * (n * (n + 1))) * g == (2 * ((n - 1) * n)) * g + (4 * n) * g) by (nonlinear_arith);
    }
}

/// A mean is the sum of the samples over their number, to within so many grains.
pub proof fn law_mean_is_the_mean(s: Seq<Single>)
    requires
        full_scale(s),
        1 <= s.len() <= 2000,
    ensures
        within(signal::mean(s), -4, 4),
        close(
            s.len() * units_of(signal::mean(s)),
            exact_total(s),
            (2 * (s.len() * s.len()) + 7 * s.len()) * grain(),
        ),
{
    let (q, g, p) = (quarter(), grain(), whole());
    let n = s.len() as int;
    drift::lemma_measures();
    lemma_total(s);
    laws::law_small_integers_are_exact(n as u64);
    let (x, y) = (signal::total(s), Single::from_u64(n as u64));
    assert(units_of(y) == n * p) by {
        reveal(units_of);
    }
    let (ux, uy) = (units_of(x), units_of(y));
    assert(uy > 0) by (nonlinear_arith)
        requires
            uy == n * p,
            n >= 1,
            p > 0,
    ;
    assert((-4 * q) * uy <= ux * p <= (4 * q) * uy) by (nonlinear_arith)
        requires
            -(4 * n) * q <= ux <= (4 * n) * q,
            uy == n * p,
            p > 0,
    {
        assert(ux * p <= ((4 * n) * q) * p);
        assert((-(4 * n) * q) * p <= ux * p);
        assert(((4 * n) * q) * p == (4 * q) * (n * p));
        assert((-(4 * n) * q) * p == (-4 * q) * (n * p));
    }
    drift::lemma_over(x, y, -4, 4, 4);
    let r = units_of(x.over(y));
    assert((n * r) * p == r * uy && (5 * g) * uy == ((5 * n) * g) * p) by (nonlinear_arith)
        requires
            uy == n * p,
    ;
    assert(close(n * r, ux, (5 * n) * g)) by (nonlinear_arith)
        requires
            close((n * r) * p, ux * p, ((5 * n) * g) * p),
            p > 0,
    ;
    let m = 2 * (n * (n + 1));
    assert((2 * (n * n) + 7 * n) * g == m * g + (5 * n) * g) by (nonlinear_arith)
        requires
            m == 2 * (n * (n + 1)),
    ;
}

/// The mono downmix is the plain mean of the channels of each frame; what is mono
/// stays as it is.
pub proof fn law_downmix_is_the_mean(interleaved: Seq<Single>, channels: u16, f: int)
    requires
        full_scale(interleaved),
        1 <= channels <= 1000,
        0 <= f,
        (f + 1) * channels <= interleaved.len(),
    ensures
        ({
            let (r, n) = (decode::downmixed(interleaved, channels), channels as int);
            &&& r.len() == interleaved.len() / channels as nat
            &&& f < r.len()
            &&& close(
                n * units_of(r[f]),
                exact_total(interleaved.subrange(f * n, f * n + n)),
                (2 * (n * n) + 7 * n) * grain(),
            )
        }),
{
    let n = channels as int;
    let len = interleaved.len() as int;
    lemma_fundamental_div_mod(len, n);
    lemma_mod_bound(len, n);
    let count = len / n;
    assert(f < count && f * n + n <= len && f * n >= 0) by (nonlinear_arith)
        requires
            len == n * count + len % n,
            0 <= len % n < n,
            (f + 1) * n <= len,
            f >= 0,
            n >= 1,
    ;
    let part = interleaved.subrange(f * n, f * n + n);
    assert forall|i: int| 0 <= i < part.len() implies within(#[trigger] part[i], -4, 4) by {
        assert(part[i] == interleaved[f * n + i]);
    }
    if n == 1 {
        drift::lemma_measures();
        assert(f * 1 == f);
        assert(n * count == count) by (nonlinear_arith)
            requires
                n == 1,
        ;
        assert(count == len);
        assert(part.drop_last() =~= Seq::empty());
        assert(exact_total(part.drop_last()) == 0);
        assert(part.last() == interleaved[f]);
        assert(exact_total(part) == units_of(interleaved[f]));
        let x = units_of(interleaved[f]);
        assert(n * x == x && n * n == 1) by (nonlinear_arith)
            requires
                n == 1,
        ;
        assert((2 * (n * n) + 7 * n) * grain() == 9 * grain());
    } else {
        law_mean_is_the_mean(part);
        assert(decode::downmixed(interleaved, channels)[f] == signal::mean(part));
    }
    assert(interleaved.len() / channels as nat == count);
}

/// Mirroring puts the last sample first; padding puts zeros behind.
pub proof fn law_mirror_turns_around(s: Seq<Single>, length: nat, i: int)
    requires
        s.len() <= length,
        0 <= i < length,
    ensures
        sync::padded(s, length).len() == length,
        sync::mirrored(s, length).len() == length,
        i < s.len() ==> sync::padded(s, length)[i] == s[i] && sync::mirrored(s, length)[i] == s[s.len()
            - 1 - i],
        i >= s.len() ==> sync::padded(s, length)[i] == (Single { bits: 0 }) && sync::mirrored(
            s,
            length,
        )[i] == (Single { bits: 0 }),
{
}

/// The lines of two transforms are multiplied as complex numbers.
pub proof fn law_lines_multiply(a: (Single, Single), b: (Single, Single))
    requires
        within(a.0, -400, 400) && within(a.1, -400, 400),
        within(b.0, -400, 400) && within(b.1, -400, 400),
    ensures
        ({
            let r = sync::complex_product(a, b);
            let (x, y) = (units_of(a.0), units_of(a.1));
            let (u, v) = (units_of(b.0), units_of(b.1));
            let e = (160_002 * grain()) * whole();
            &&& close(units_of(r.0) * whole(), x * u - y * v, e)
            &&& close(units_of(r.1) * whole(), x * v + y * u, e)
        }),
{
    let (w, g, q) = (whole(), grain(), quarter());
    drift::lemma_measures();
    drift::lemma_multiplied(a.0, b.0, 400, 400, 40_000);
    drift::lemma_multiplied(a.1, b.1, 400, 400, 40_000);
    drift::lemma_multiplied(a.1, b.0, 400, 400, 40_000);
    drift::lemma_multiplied(a.0, b.1, 400, 400, 40_000);
    let (c, d) = (a.0.times(b.0), a.1.times(b.1));
    let (e, f) = (a.1.times(b.0), a.0.times(b.1));
    drift::lemma_minus(c, d, -80_000, 80_000, 80_000);
    drift::lemma_plus(e, f, -80_000, 80_000, 80_000);
    let r = sync::complex_product(a, b);
    let (m, n) = (units_of(r.0), units_of(r.1));
    let k = g * w;
    assert(((40_000 + 1) * g) * w == 40_001 * k && (160_002 * g) * w == 160_002 * k) by (nonlinear_arith)
        requires
            k == g * w,
    ;
    assert(close(m * w, units_of(c) * w - units_of(d) * w, 80_000 * k)) by (nonlinear_arith)
        requires
            close(m, units_of(c) - units_of(d), 80_000 * g),
            k == g * w,
            w > 0,
    ;
    assert(close(n * w, units_of(e) * w + units_of(f) * w, 80_000 * k)) by (nonlinear_arith)
        requires
            close(n, units_of(e) + units_of(f), 80_000 * g),
            k == g * w,
            w > 0,
    ;
    assert(units_of(a.1) * units_of(b.0) == units_of(a.1) * units_of(b.0));
}

} // verus!
