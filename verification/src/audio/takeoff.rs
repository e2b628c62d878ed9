//! Finds the moment the propellers spin up in a recording.
//!
//! This is what anchors an external microphone to the video: the take-off is the
//! one event both the audio and the gyroscope witness. Three decisions carry the
//! accuracy: the first rise counts, not the largest one; the band is searched,
//! not assumed; and sustain tells a flight from a noise.
//!
//! The level of one frequency in one window of audio is found by the Goertzel
//! recurrence. It needs one cosine per frequency, which comes from the caller.

use crate::audio::order;
use crate::audio::signal;
use crate::audio::sync;
use crate::ieee::double::Double;
use crate::ieee::laws;
use crate::ieee::single::Single;
use vstd::prelude::*;

verus! {

/// A detected take-off.
#[derive(Debug, Clone, Copy, PartialEq)]
pub struct Takeoff {
    /// Seconds from the start of the audio.
    pub time_seconds: Double,
    /// How much the level holds after the rise, as a ratio against the level
    /// before it.
    pub sustain: Single,
    /// Low edge of the band the detection came from, in Hz.
    pub band_lo_hz: Single,
}

/// Bits of 4.5: below this sustain, the rise is not treated as a take-off.
pub const MIN_SUSTAIN: u32 = 0x4090_0000;

/// Bits of 20.0, the envelope resolution in Hz.
pub const ENVELOPE_RATE_HZ: u32 = 0x41a0_0000;

/// Samples averaged on each side of a candidate when measuring a rise: one
/// second of envelope.
pub const RISE_WINDOW: usize = 20;

/// Samples after the rise used to measure sustain: ten seconds of envelope.
pub const SUSTAIN_WINDOW: usize = 200;

/// Bits of 0.2: a rise counts once it reaches this fraction of the largest rise
/// in the clip.
pub const RISE_FRACTION: u32 = 0x3e4c_cccd;

/// Bits of 0.3: the level that marks the onset, as a fraction of the rise.
pub const ONSET_FRACTION: u32 = 0x3e99_999a;

/// Bits of 1e-6: a level no higher than this is silence.
pub const SILENCE: u32 = 0x3586_37bd;

/// Bits of 1e-9: an envelope no higher than this is left as it is.
pub const FLAT: u32 = 0x3089_705f;

/// Bits of 200.0, the distance between probed frequencies in Hz.
pub const PROBE_STEP: u32 = 0x4348_0000;

/// Bits of 0.9, the part of the range below half the sample rate that is used.
pub const USABLE: u32 = 0x3f66_6666;

/// Bits of 2.0 and 3.0.
pub const TWO: u32 = 0x4000_0000;

pub const THREE: u32 = 0x4040_0000;

/// Samples in a window of audio.
pub const WINDOW: usize = 2048;

/// Fewest points of an envelope that are worth searching.
pub const MIN_POINTS: usize = 60;

/// Low edges of the octave bands searched: 300, 700, 1200, 1800, 2500, 3500,
/// 5000 and 7000 Hz. The range covers small propellers, whose harmonics sit
/// high, down to large ones.
pub open spec fn band_edge(i: int) -> Single {
    Single {
        bits: if i == 0 {
            0x4396_0000
        } else if i == 1 {
            0x442f_0000
        } else if i == 2 {
            0x4496_0000
        } else if i == 3 {
            0x44e1_0000
        } else if i == 4 {
            0x451c_4000
        } else if i == 5 {
            0x455a_c000
        } else if i == 6 {
            0x459c_4000
        } else {
            0x45da_c000
        },
    }
}

fn edges() -> (r: [Single; 8])
    ensures
        forall|i: int| 0 <= i < 8 ==> #[trigger] r[i] == band_edge(i),
{
    [
        Single { bits: 0x4396_0000 },
        Single { bits: 0x442f_0000 },
        Single { bits: 0x4496_0000 },
        Single { bits: 0x44e1_0000 },
        Single { bits: 0x451c_4000 },
        Single { bits: 0x455a_c000 },
        Single { bits: 0x459c_4000 },
        Single { bits: 0x45da_c000 },
    ]
}

/// Upper edge of the band from `lo` on: an octave up, within what the sample rate
/// can carry.
pub open spec fn band_top(lo: Single, sample_rate: u32) -> Single {
    let nyquist = Single::from_u64(sample_rate as u64).over(Single { bits: TWO });
    lo.times(Single { bits: TWO }).lesser_of(nyquist.times(Single { bits: USABLE }))
}

/// The first `n` of the bands, without those the sample rate cannot carry.
pub open spec fn bands_among(n: nat, sample_rate: u32) -> Seq<(Single, Single)>
    decreases n,
{
    if n == 0 {
        Seq::empty()
    } else {
        let lo = band_edge(n - 1);
        let hi = band_top(lo, sample_rate);
        let before = bands_among((n - 1) as nat, sample_rate);
        if hi.at_most(lo) {
            before
        } else {
            before.push((lo, hi))
        }
    }
}

/// The bands to search in a recording, as low and high edge in Hz.
pub fn bands(sample_rate: u32) -> (r: Vec<(Single, Single)>)
    ensures
        r@ == bands_among(8, sample_rate),
{
    let nyquist = Single::from_u64(sample_rate as u64).over(Single { bits: TWO });
    let usable = nyquist.times(Single { bits: USABLE });
    let edges = edges();
    let mut r: Vec<(Single, Single)> = Vec::new();
    let mut i: usize = 0;
    while i < 8
        invariant
            i <= 8,
            usable == Single::from_u64(sample_rate as u64).over(Single { bits: TWO }).times(
                Single { bits: USABLE },
            ),
            forall|j: int| 0 <= j < 8 ==> #[trigger] edges[j] == band_edge(j),
            r@ == bands_among(i as nat, sample_rate),
        decreases 8 - i,
    {
        let lo = edges[i];
        let hi = lo.times(Single { bits: TWO }).lesser_of(usable);
        if !hi.at_most(lo) {
            r.push((lo, hi));
        }
        i = i + 1;
    }
    r
}

/// Samples between the starts of two windows.
pub open spec fn hop(sample_rate: u32) -> nat {
    let n = Single::from_u64(sample_rate as u64).over(Single { bits: ENVELOPE_RATE_HZ }).greater_of(
        Single::one(),
    ).trunc_u64();
    if n <= usize::MAX {
        n as nat
    } else {
        usize::MAX as nat
    }
}

proof fn lemma_hop(sample_rate: u32)
    ensures
        hop(sample_rate) > 0,
{
    let x = Single::from_u64(sample_rate as u64).over(Single { bits: ENVELOPE_RATE_HZ });
    let y = x.greater_of(Single::one());
    if x.nan() || x.less(Single::one()) {
        assert(y == Single::one());
    }
    laws::law_whole_part_of_one(y);
}

/// How many windows are measured in a recording of `length` samples.
pub open spec fn window_count(length: nat, hop: nat) -> nat {
    if length <= WINDOW || hop == 0 {
        0
    } else {
        ((length - WINDOW - 1) as nat / hop + 1) as nat
    }
}

/// Starts of the windows measured in a recording of `length` samples.
pub fn window_starts(length: usize, sample_rate: u32) -> (r: Vec<usize>)
    ensures
        hop(sample_rate) > 0,
        r@ == Seq::new(
            window_count(length as nat, hop(sample_rate)),
            |i: int| (i * hop(sample_rate)) as usize,
        ),
{
    let step = Single::from_u64(sample_rate as u64).over(
        Single { bits: ENVELOPE_RATE_HZ },
    ).greater_of(Single::one()).trunc_u64();
    let step: usize = if step <= usize::MAX as u64 {
        step as usize
    } else {
        usize::MAX
    };
    proof {
        lemma_hop(sample_rate);
    }
    let ghost h = hop(sample_rate) as int;
    let ghost all = Seq::new(
        window_count(length as nat, hop(sample_rate)),
        |i: int| (i * hop(sample_rate)) as usize,
    );
    let mut r: Vec<usize> = Vec::new();
    if length <= WINDOW {
        proof {
            assert(r@ =~= all);
        }
        return r;
    }
    let last: usize = length - WINDOW - 1;
    let count: usize = last / step;
    proof {
        vstd::arithmetic::div_mod::lemma_fundamental_div_mod(last as int, h);
        vstd::arithmetic::div_mod::lemma_mod_bound(last as int, h);
        assert(count * h <= last) by (nonlinear_arith)
            requires
                last == h * count + last as int % h,
                last as int % h >= 0,
        ;
        assert(count <= last) by (nonlinear_arith)
            requires
                count * h <= last,
                h >= 1,
        ;
        assert(all.take(0) =~= Seq::empty());
    }
    let mut i: usize = 0;
    while i <= count
        invariant
            i <= count + 1,
            step == h,
            h == hop(sample_rate),
            h > 0,
            count * h <= last,
            last < length,
            count <= last,
            all.len() == count + 1,
            all == Seq::new(
                window_count(length as nat, hop(sample_rate)),
                |j: int| (j * hop(sample_rate)) as usize,
            ),
            r@ == all.take(i as int),
        decreases count + 1 - i,
    {
        proof {
            assert(i * h <= count * h) by (nonlinear_arith)
                requires
                    i <= count,
                    h > 0,
            ;
        }
        r.push(i * step);
        i = i + 1;
        proof {
            assert(all.take(i as int) =~= all.take(i - 1).push(all[i - 1]));
        }
    }
    proof {
        assert(all.take(i as int) =~= all);
    }
    r
}

/// The `i`-th frequency probed in the band from `lo` on.
pub open spec fn probe(lo: Single, i: nat) -> Single
    decreases i,
{
    if i == 0 {
        lo
    } else {
        probe(lo, (i - 1) as nat).plus(Single { bits: PROBE_STEP })
    }
}

/// The frequencies probed in a band: from `lo` up to below `hi`, 200 Hz apart.
///
/// Frequencies end at 2147483648 Hz; the steps would get lost beyond.
pub fn probes(lo: Single, hi: Single) -> (r: Vec<Single>)
    requires
        Single::zero().at_most(lo),
        hi.at_most(Single { bits: laws::FAR_OUT }),
    ensures
        forall|i: int|
            0 <= i < r@.len() ==> #[trigger] r@[i] == probe(lo, i as nat) && r@[i].less(hi),
        !probe(lo, r@.len()).less(hi),
{
    let mut r: Vec<Single> = Vec::new();
    let mut f = lo;
    while f.less(hi)
        invariant
            Single::zero().at_most(f),
            hi.at_most(Single { bits: laws::FAR_OUT }),
            f == probe(lo, r@.len()),
            forall|i: int|
                0 <= i < r@.len() ==> #[trigger] r@[i] == probe(lo, i as nat) && r@[i].less(hi),
        decreases 0x8000_0000 - f.rank(),
    {
        r.push(f);
        proof {
            laws::law_step_is_felt(f);
        }
        f = f.plus(Single { bits: PROBE_STEP });
    }
    r
}

/// Bits of 2048.0, the samples in a window of audio.
pub const WINDOW_LENGTH: u32 = 0x4500_0000;

/// How far a frequency turns from one sample to the next.
pub open spec fn angle(freq: Single, sample_rate: u32) -> Single {
    let n = Single { bits: WINDOW_LENGTH };
    let k = freq.times(n).over(Single::from_u64(sample_rate as u64));
    Single { bits: signal::TURN }.times(k).over(n)
}

/// The angles whose cosines the levels of some frequencies need.
pub fn angles(probes: &[Single], sample_rate: u32) -> (r: Vec<Single>)
    ensures
        r@ == Seq::new(probes@.len(), |i: int| angle(probes@[i], sample_rate)),
{
    let n = Single { bits: WINDOW_LENGTH };
    let rate = Single::from_u64(sample_rate as u64);
    let ghost all = Seq::new(probes@.len(), |i: int| angle(probes@[i], sample_rate));
    let mut r: Vec<Single> = Vec::new();
    let mut i: usize = 0;
    while i < probes.len()
        invariant
            i <= probes@.len(),
            n == (Single { bits: WINDOW_LENGTH }),
            rate == Single::from_u64(sample_rate as u64),
            all == Seq::new(probes@.len(), |j: int| angle(probes@[j], sample_rate)),
            r@ == all.take(i as int),
        decreases probes@.len() - i,
    {
        let k = probes[i].times(n).over(rate);
        r.push(Single { bits: signal::TURN }.times(k).over(n));
        i = i + 1;
        proof {
            assert(all.take(i as int) =~= all.take(i - 1).push(all[i - 1]));
        }
    }
    proof {
        assert(all.take(i as int) =~= all);
    }
    r
}

/// The last two states of the recurrence over some samples, the latest first.
pub open spec fn resonance(s: Seq<Single>, coeff: Single) -> (Single, Single)
    decreases s.len(),
{
    if s.len() == 0 {
        (Single::zero(), Single::zero())
    } else {
        let (s1, s2) = resonance(s.drop_last(), coeff);
        (s.last().plus(coeff.times(s1)).minus(s2), s1)
    }
}

/// Level of a frequency in some samples, from the cosine of its angle.
pub open spec fn level(s: Seq<Single>, cosine: Single) -> Single {
    let coeff = Single { bits: TWO }.times(cosine);
    let (s1, s2) = resonance(s, coeff);
    s1.times(s1).plus(s2.times(s2)).minus(coeff.times(s1).times(s2)).greater_of(
        Single::zero(),
    ).sqrt()
}

/// Magnitude of one frequency in the samples `from..to`, by the Goertzel
/// recurrence.
pub fn goertzel(samples: &[Single], from: usize, to: usize, cosine: Single) -> (r: Single)
    requires
        from <= to <= samples@.len(),
    ensures
        r == level(samples@.subrange(from as int, to as int), cosine),
{
    let coeff = Single { bits: TWO }.times(cosine);
    let mut s1 = Single::zero();
    let mut s2 = Single::zero();
    let mut i: usize = from;
    while i < to
        invariant
            from <= i <= to <= samples@.len(),
            (s1, s2) == resonance(samples@.subrange(from as int, i as int), coeff),
        decreases to - i,
    {
        let s0 = samples[i].plus(coeff.times(s1)).minus(s2);
        s2 = s1;
        s1 = s0;
        i = i + 1;
        proof {
            assert(samples@.subrange(from as int, i as int).drop_last() =~= samples@.subrange(
                from as int,
                i - 1,
            ));
        }
    }
    s1.times(s1).plus(s2.times(s2)).minus(coeff.times(s1).times(s2)).greater_of(
        Single::zero(),
    ).sqrt()
}

/// The window of a recording that starts at `start`.
pub open spec fn window_at(mono: Seq<Single>, start: int) -> Seq<Single> {
    mono.subrange(start, start + WINDOW)
}

/// The mean level of a window, over the frequencies given by their cosines.
pub open spec fn window_level(window: Seq<Single>, cosines: Seq<Single>) -> Single {
    signal::mean_from_zero(Seq::new(cosines.len(), |i: int| level(window, cosines[i])))
}

/// The mean level of each window of a recording; none where no frequency is
/// probed.
pub open spec fn recording_levels(mono: Seq<Single>, sample_rate: u32, cosines: Seq<Single>) -> Seq<
    Single,
> {
    let step = hop(sample_rate);
    Seq::new(
        if cosines.len() == 0 {
            0
        } else {
            window_count(mono.len(), step)
        },
        |i: int| window_level(window_at(mono, i * step), cosines),
    )
}

/// [`window_level`] of the window at `start`.
fn level_at(mono: &[Single], start: usize, cosines: &[Single]) -> (r: Single)
    requires
        start + WINDOW <= mono@.len() <= usize::MAX,
    ensures
        r == window_level(window_at(mono@, start as int), cosines@),
{
    let end: usize = start + WINDOW;
    let ghost window = window_at(mono@, start as int);
    let ghost all = Seq::new(cosines@.len(), |i: int| level(window, cosines@[i]));
    let mut total = Single::zero();
    let mut i: usize = 0;
    proof {
        assert(all.take(0) =~= Seq::empty());
    }
    while i < cosines.len()
        invariant
            i <= cosines@.len(),
            end == start + WINDOW,
            end <= mono@.len(),
            window == window_at(mono@, start as int),
            all == Seq::new(cosines@.len(), |j: int| level(window, cosines@[j])),
            total == signal::sum_from_zero(all.take(i as int)),
        decreases cosines@.len() - i,
    {
        total = total.plus(goertzel(mono, start, end, cosines[i]));
        i = i + 1;
        proof {
            assert(all.take(i as int).drop_last() =~= all.take(i - 1));
        }
    }
    proof {
        assert(all.take(i as int) =~= all);
    }
    total.over(Single::from_u64(cosines.len() as u64))
}

/// Energy envelope of one frequency band, normalized to its own maximum.
///
/// Only a handful of frequencies per window are needed, each given by the cosine
/// of its angle.
pub fn band_envelope(mono: &[Single], sample_rate: u32, cosines: &[Single]) -> (r: Vec<Single>)
    ensures
        r@ == over_peak(recording_levels(mono@, sample_rate, cosines@)),
{
    let ghost all = recording_levels(mono@, sample_rate, cosines@);
    let mut envelope: Vec<Single> = Vec::new();
    if cosines.len() == 0 {
        proof {
            assert(all =~= Seq::empty());
        }
        return scaled(envelope);
    }
    let starts = window_starts(mono.len(), sample_rate);
    let ghost step = hop(sample_rate);
    let mut i: usize = 0;
    while i < starts.len()
        invariant
            i <= starts@.len(),
            mono@.len() <= usize::MAX,
            step == hop(sample_rate),
            step > 0,
            cosines@.len() > 0,
            starts@ == Seq::new(
                window_count(mono@.len(), step),
                |j: int| (j * step) as usize,
            ),
            all == recording_levels(mono@, sample_rate, cosines@),
            envelope@ == all.take(i as int),
        decreases starts@.len() - i,
    {
        let start: usize = starts[i];
        proof {
            lemma_window_inside(mono@.len(), step, i as int);
            assert(start == i * step);
        }
        let level = level_at(mono, start, cosines);
        assert(level == all[i as int]);
        envelope.push(level);
        i = i + 1;
        proof {
            assert(all.take(i as int) =~= all.take(i - 1).push(all[i - 1]));
        }
    }
    proof {
        assert(all.take(i as int) =~= all);
    }
    scaled(envelope)
}

/// Every window lies within the recording.
proof fn lemma_window_inside(length: nat, hop: nat, i: int)
    requires
        hop > 0,
        0 <= i < window_count(length, hop),
    ensures
        0 <= i * hop,
        i * hop + WINDOW < length,
{
    let last = length - WINDOW - 1;
    vstd::arithmetic::div_mod::lemma_fundamental_div_mod(last, hop as int);
    vstd::arithmetic::div_mod::lemma_mod_bound(last, hop as int);
    let count = last / hop as int;
    assert(0 <= i * hop <= last) by (nonlinear_arith)
        requires
            0 <= i <= count,
            last == hop * count + last % hop as int,
            last % hop as int >= 0,
            hop > 0,
    ;
}

/// Levels over their own maximum; left as they are where that is next to
/// nothing.
pub open spec fn over_peak(s: Seq<Single>) -> Seq<Single> {
    let peak = signal::peak(s);
    Seq::new(
        s.len(),
        |i: int|
            if (Single { bits: FLAT }).less(peak) {
                s[i].over(peak)
            } else {
                s[i]
            },
    )
}

/// [`over_peak`], computed.
fn scaled(envelope: Vec<Single>) -> (r: Vec<Single>)
    ensures
        r@ == over_peak(envelope@),
{
    let n: usize = envelope.len();
    let peak = signal::peak_of(envelope.as_slice());
    let scale = Single { bits: FLAT }.less(peak);
    let ghost all = over_peak(envelope@);
    let mut r: Vec<Single> = Vec::new();
    let mut i: usize = 0;
    while i < n
        invariant
            i <= n,
            n == envelope@.len(),
            peak == signal::peak(envelope@),
            scale == (Single { bits: FLAT }).less(peak),
            all == over_peak(envelope@),
            r@ == all.take(i as int),
        decreases n - i,
    {
        if scale {
            r.push(envelope[i].over(peak));
        } else {
            r.push(envelope[i]);
        }
        i = i + 1;
        proof {
            assert(all.take(i as int) =~= all.take(i - 1).push(all[i - 1]));
        }
    }
    proof {
        assert(all.take(i as int) =~= all);
    }
    r
}

/// Mean level of the `k` points from `i` on.
pub open spec fn level_from(envelope: Seq<Single>, i: int, k: nat) -> Single {
    signal::mean(envelope.subrange(i, i + k))
}

/// Level before a rise: the median of the two seconds before it.
pub open spec fn level_before(envelope: Seq<Single>, index: nat) -> Single {
    let from = if index < 2 * RISE_WINDOW {
        0
    } else {
        index - 2 * RISE_WINDOW
    };
    let to = if index > from + 1 {
        index as int
    } else {
        from + 1
    };
    order::median(envelope.subrange(from, to))
}

/// Level after a rise: the median of the ten seconds after it.
pub open spec fn level_after(envelope: Seq<Single>, index: nat) -> Single {
    order::median(
        envelope.subrange(
            index as int,
            sync::window_end(index, SUSTAIN_WINDOW as nat, envelope.len()) as int,
        ),
    )
}

/// How much the level holds after a rise, 0 where there is silence before it.
pub open spec fn sustain_at(envelope: Seq<Single>, index: nat) -> Single {
    if (Single { bits: SILENCE }).less(level_before(envelope, index)) {
        level_after(envelope, index).over(level_before(envelope, index))
    } else {
        Single::zero()
    }
}

/// The level that marks the onset of a rise.
pub open spec fn onset_level(envelope: Seq<Single>, index: nat) -> Single {
    let before = level_before(envelope, index);
    let after = level_from(envelope, index as int, RISE_WINDOW as nat);
    before.plus(after.minus(before).times(Single { bits: ONSET_FRACTION }))
}

/// Three points from `i` on are together as loud as `target`.
pub open spec fn is_loud(envelope: Seq<Single>, i: int, target: Single) -> bool {
    target.at_most(signal::total(envelope.subrange(i, i + 3)).over(Single { bits: THREE }))
}

/// Where the search for an onset ends.
pub open spec fn onset_end(index: nat, length: nat) -> int {
    if index + RISE_WINDOW < length - 2 {
        index + RISE_WINDOW
    } else {
        length - 2
    }
}

/// `onset` is the first point of the second after the rise that is loud, or the
/// rise itself where none is.
pub open spec fn is_onset(envelope: Seq<Single>, index: nat, onset: nat) -> bool {
    let target = onset_level(envelope, index);
    let end = onset_end(index, envelope.len());
    if exists|i: int| index <= i < end && #[trigger] is_loud(envelope, i, target) {
        &&& index <= onset < end
        &&& is_loud(envelope, onset as int, target)
        &&& forall|i: int| index <= i < onset ==> !#[trigger] is_loud(envelope, i, target)
    } else {
        onset == index
    }
}

/// `r` is the onset of the first rise of an envelope, with its sustain.
pub open spec fn rises_first(envelope: Seq<Single>, r: Option<(usize, Single)>) -> bool {
    let rise = sync::rises(envelope, RISE_WINDOW as nat);
    let largest = signal::peak(rise);
    let threshold = largest.times(Single { bits: RISE_FRACTION });
    if envelope.len() < 2 * RISE_WINDOW + 1 || largest.at_most(Single::zero()) {
        r is None
    } else {
        match r {
            None => sync::first_reaching(rise, threshold, None),
            Some(found) => exists|index: usize| #[trigger]
                sync::first_reaching(rise, threshold, Some(index)) && is_onset(
                    envelope,
                    index as nat,
                    found.0 as nat,
                ) && found.1 == sustain_at(envelope, index as nat),
        }
    }
}

proof fn lemma_part_numbers(s: Seq<Single>, from: int, to: int)
    requires
        order::all_numbers(s),
        0 <= from <= to <= s.len(),
    ensures
        order::all_numbers(s.subrange(from, to)),
{
    let part = s.subrange(from, to);
    assert forall|i: int| 0 <= i < part.len() implies !(#[trigger] part[i]).nan() by {
        assert(part[i] == s[from + i]);
    }
}

/// A second of envelope follows the first rise.
proof fn lemma_rise_inside(envelope: Seq<Single>, index: usize)
    requires
        envelope.len() >= 2 * RISE_WINDOW + 1,
        ({
            let rise = sync::rises(envelope, RISE_WINDOW as nat);
            let largest = signal::peak(rise);
            &&& !largest.at_most(Single::zero())
            &&& sync::first_reaching(
                rise,
                largest.times(Single { bits: RISE_FRACTION }),
                Some(index),
            )
        }),
    ensures
        index + RISE_WINDOW <= envelope.len(),
{
    let rise = sync::rises(envelope, RISE_WINDOW as nat);
    let largest = signal::peak(rise);
    let threshold = largest.times(Single { bits: RISE_FRACTION });
    lemma_peak_is_number(rise);
    laws::law_positive_product(largest, Single { bits: RISE_FRACTION });
    if index + RISE_WINDOW > envelope.len() {
        assert(rise[index as int] == Single::zero());
        assert(rise[0] == Single::zero());
        assert(threshold.at_most(rise[0]));
    }
}

proof fn lemma_peak_is_number(s: Seq<Single>)
    ensures
        !signal::peak(s).nan(),
        Single::zero().at_most(signal::peak(s)),
    decreases s.len(),
{
    if s.len() > 0 {
        lemma_peak_is_number(s.drop_last());
    }
}

/// First rise in `envelope` that reaches a fifth of the largest one, with how
/// much the level sustains afterwards.
///
/// Levels are medians, not means: a single loud moment on either side would drag
/// a mean. The rise is where the second ahead first looks louder than the one
/// behind, which is before the sound actually rises; the onset is where the level
/// itself crosses 30% of that rise, three points together so a stray click does
/// not count.
pub fn first_rise_with_sustain(envelope: &[Single]) -> (r: Option<(usize, Single)>)
    requires
        envelope@.len() > 2 * RISE_WINDOW ==> order::all_numbers(envelope@),
    ensures
        rises_first(envelope@, r),
{
    let n: usize = envelope.len();
    if n < 2 * RISE_WINDOW + 1 {
        return None;
    }
    let rise = sync::rises_of(envelope, RISE_WINDOW);
    let largest = signal::peak_of(rise.as_slice());
    if largest.at_most(Single::zero()) {
        return None;
    }
    let threshold = largest.times(Single { bits: RISE_FRACTION });
    let index = match sync::find_reaching(rise.as_slice(), threshold) {
        None => {
            return None;
        },
        Some(index) => index,
    };
    proof {
        lemma_rise_inside(envelope@, index);
    }
    let (before, sustain) = levels_around(envelope, index);
    let after = signal::mean_of(envelope, index, index + RISE_WINDOW);
    let target = before.plus(after.minus(before).times(Single { bits: ONSET_FRACTION }));
    let onset = find_onset(envelope, index, target);
    Some((onset, sustain))
}

/// Level before a rise, and its sustain.
fn levels_around(envelope: &[Single], index: usize) -> (r: (Single, Single))
    requires
        order::all_numbers(envelope@),
        index + RISE_WINDOW <= envelope@.len(),
    ensures
        r.0 == level_before(envelope@, index as nat),
        r.1 == sustain_at(envelope@, index as nat),
{
    let n: usize = envelope.len();
    let from: usize = if index < 2 * RISE_WINDOW {
        0
    } else {
        index - 2 * RISE_WINDOW
    };
    let to: usize = if index > from + 1 {
        index
    } else {
        from + 1
    };
    let end: usize = if n - index <= SUSTAIN_WINDOW {
        n
    } else {
        index + SUSTAIN_WINDOW
    };
    proof {
        lemma_part_numbers(envelope@, from as int, to as int);
        lemma_part_numbers(envelope@, index as int, end as int);
    }
    let before = order::median_of(envelope, from, to);
    let after = order::median_of(envelope, index, end);
    let sustain = if (Single { bits: SILENCE }).less(before) {
        after.over(before)
    } else {
        Single::zero()
    };
    (before, sustain)
}

/// The onset of the rise at `index`.
fn find_onset(envelope: &[Single], index: usize, target: Single) -> (onset: usize)
    requires
        index + RISE_WINDOW <= envelope@.len(),
        target == onset_level(envelope@, index as nat),
    ensures
        is_onset(envelope@, index as nat, onset as nat),
{
    let n: usize = envelope.len();
    let end: usize = if index + RISE_WINDOW < n - 2 {
        index + RISE_WINDOW
    } else {
        n - 2
    };
    let mut i: usize = index;
    while i < end
        invariant
            index <= i,
            i <= end || i == index,
            n == envelope@.len(),
            n >= 2,
            end <= n - 2,
            end == onset_end(index as nat, n as nat),
            target == onset_level(envelope@, index as nat),
            forall|j: int| index <= j < i ==> !#[trigger] is_loud(envelope@, j, target),
        decreases end - i,
    {
        let level = signal::total_of(envelope, i, i + 3).over(Single { bits: THREE });
        if target.at_most(level) {
            assert(is_loud(envelope@, i as int, target));
            return i;
        }
        i = i + 1;
    }
    index
}

/// A take-off found in a band.
pub open spec fn takeoff_at(index: usize, sustain: Single, lo: Single) -> Takeoff {
    Takeoff {
        time_seconds: Double::from_u64(index as u64).over(
            Single { bits: ENVELOPE_RATE_HZ }.to_double(),
        ),
        sustain,
        band_lo_hz: lo,
    }
}

/// `r` is what the envelope of a band shows.
pub open spec fn band_shows(envelope: Seq<Single>, r: Option<(usize, Single)>) -> bool {
    if envelope.len() < MIN_POINTS {
        r is None
    } else {
        rises_first(envelope, r)
    }
}

/// The better of what was found so far and what one more band shows: the
/// highest sustain wins.
pub open spec fn better(
    best: Option<Takeoff>,
    found: Option<(usize, Single)>,
    lo: Single,
) -> Option<Takeoff> {
    match found {
        None => best,
        Some((index, sustain)) => match best {
            Some(b) => if b.sustain.less(sustain) {
                Some(takeoff_at(index, sustain, lo))
            } else {
                best
            },
            None => Some(takeoff_at(index, sustain, lo)),
        },
    }
}

/// Takes in what one more band shows.
pub fn consider(best: Option<Takeoff>, envelope: &[Single], lo: Single) -> (r: Option<Takeoff>)
    requires
        envelope@.len() >= MIN_POINTS ==> order::all_numbers(envelope@),
    ensures
        exists|found: Option<(usize, Single)>| #[trigger]
            band_shows(envelope@, found) && r == better(best, found, lo),
{
    let found = if envelope.len() < MIN_POINTS {
        None
    } else {
        first_rise_with_sustain(envelope)
    };
    assert(band_shows(envelope@, found));
    match found {
        None => best,
        Some((index, sustain)) => {
            let wins = match best {
                Some(b) => b.sustain.less(sustain),
                None => true,
            };
            if wins {
                Some(
                    Takeoff {
                        time_seconds: Double::from_u64(index as u64).over(
                            Single { bits: ENVELOPE_RATE_HZ }.to_double(),
                        ),
                        sustain,
                        band_lo_hz: lo,
                    },
                )
            } else {
                best
            }
        },
    }
}

/// What the first bands show, the best of them kept.
pub open spec fn best_among(
    shown: Seq<Option<(usize, Single)>>,
    bands: Seq<(Single, Vec<Single>)>,
) -> Option<Takeoff>
    decreases shown.len(),
{
    if shown.len() == 0 {
        None
    } else {
        better(
            best_among(shown.drop_last(), bands),
            shown.last(),
            bands[shown.len() - 1].0,
        )
    }
}

/// A take-off that holds.
pub open spec fn accepted(best: Option<Takeoff>) -> Option<Takeoff> {
    match best {
        Some(t) => if (Single { bits: MIN_SUSTAIN }).at_most(t.sustain) {
            best
        } else {
            None
        },
        None => None,
    }
}

/// Looks for the take-off in the envelopes of the bands, each given with its low
/// edge; `None` when no band shows the pattern - which is the right answer for a
/// recording with no flight in it.
pub fn detect(bands: &[(Single, Vec<Single>)]) -> (r: Option<Takeoff>)
    requires
        forall|i: int|
            0 <= i < bands@.len() ==> (#[trigger] bands@[i]).1@.len() >= MIN_POINTS
                ==> order::all_numbers(bands@[i].1@),
    ensures
        exists|shown: Seq<Option<(usize, Single)>>|
            {
                &&& shown.len() == bands@.len()
                &&& forall|i: int|
                    0 <= i < bands@.len() ==> band_shows(bands@[i].1@, #[trigger] shown[i])
                &&& r == accepted(#[trigger] best_among(shown, bands@))
            },
{
    let mut best: Option<Takeoff> = None;
    let ghost mut shown: Seq<Option<(usize, Single)>> = Seq::empty();
    let mut i: usize = 0;
    while i < bands.len()
        invariant
            i <= bands@.len(),
            shown.len() == i,
            forall|j: int| 0 <= j < i ==> band_shows(bands@[j].1@, #[trigger] shown[j]),
            best == best_among(shown, bands@),
            forall|j: int|
                0 <= j < bands@.len() ==> (#[trigger] bands@[j]).1@.len() >= MIN_POINTS
                    ==> order::all_numbers(bands@[j].1@),
        decreases bands@.len() - i,
    {
        let band = &bands[i];
        let next = consider(best, band.1.as_slice(), band.0);
        proof {
            let found = choose|found: Option<(usize, Single)>| #[trigger]
                band_shows(bands@[i as int].1@, found) && next == better(
                    best,
                    found,
                    bands@[i as int].0,
                );
            let before = shown;
            shown = shown.push(found);
            assert(shown.drop_last() =~= before);
        }
        best = next;
        i = i + 1;
    }
    match best {
        Some(t) => if (Single { bits: MIN_SUSTAIN }).at_most(t.sustain) {
            best
        } else {
            None
        },
        None => None,
    }
}

} // verus!
