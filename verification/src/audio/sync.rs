//! Alignment of the audio and the gyroscope.
//!
//! Takes the two intensity curves of [`crate::audio::features`] and gives the
//! time shift that aligns them best, with a confidence score; and finds the
//! instant at which a curve first rises, and the aircraft first lifts off.
//!
//! The correlation goes through Fourier transforms, which belong to the caller:
//! here stands what they are given and what is read from their results.

use crate::audio::order;
use crate::audio::signal;
use crate::ieee::double::Double;
use crate::ieee::single::Single;
use vstd::arithmetic::power2::*;
use vstd::prelude::*;

verus! {

/// Result of the automatic alignment.
#[derive(Debug, Clone, Copy, PartialEq)]
pub struct SyncResult {
    /// Estimated shift in seconds, following `t_audio = t_video + offset`.
    pub offset_seconds: Double,
    /// Match quality, from 0 to 1: the normalized correlation coefficient at the
    /// peak. Low values mean the two signals have no clear common signature.
    pub confidence: Single,
}

/// Bits of 1e-9: a signal that deviates less is as good as constant.
pub const STILL: u32 = 0x3089_705f;

/// Squared distances of some samples from `m`.
pub open spec fn squares(s: Seq<Single>, m: Single) -> Seq<Single> {
    Seq::new(s.len(), |i: int| s[i].minus(m).times(s[i].minus(m)))
}

/// Standard deviation of some samples.
pub open spec fn deviation(s: Seq<Single>) -> Single {
    signal::mean(squares(s, signal::mean(s))).sqrt()
}

/// Every sample is the same.
pub open spec fn is_constant(s: Seq<Single>) -> bool {
    forall|i: int| 0 <= i < s.len() ==> (#[trigger] s[i]).equals(s[0])
}

/// A signal carries no alignment information: it is constant, or deviates by
/// next to nothing.
pub open spec fn is_still(s: Seq<Single>) -> bool {
    is_constant(s) || deviation(s).less(Single { bits: STILL })
}

/// An envelope with zero mean and unit standard deviation; all 0 where it
/// carries no alignment information.
pub open spec fn standardized(s: Seq<Single>) -> Seq<Single> {
    let m = signal::mean(s);
    let d = deviation(s);
    Seq::new(
        s.len(),
        |i: int|
            if is_still(s) {
                Single::zero()
            } else {
                s[i].minus(m).over(d)
            },
    )
}

/// A constant signal comes out as zeros, whatever rounding makes of its mean.
pub proof fn law_constant_signal_vanishes(s: Seq<Single>, i: int)
    requires
        is_constant(s),
        0 <= i < s.len(),
    ensures
        standardized(s)[i] == Single::zero(),
{
}

/// Normalizes an envelope to zero mean and unit standard deviation.
///
/// Without this the correlation would be dominated by the absolute amplitude of
/// each signal, which is unrelated between a microphone and a gyroscope.
pub fn normalize(signal: &[Single]) -> (r: Vec<Single>)
    ensures
        r@ == standardized(signal@),
{
    let n: usize = signal.len();
    let m = signal::mean_of(signal, 0, n);
    let mut spread: Vec<Single> = Vec::new();
    proof {
        assert(signal@.subrange(0, n as int) =~= signal@);
    }
    let ghost all = squares(signal@, m);
    let mut i: usize = 0;
    while i < n
        invariant
            i <= n,
            n == signal@.len(),
            all == squares(signal@, m),
            spread@ == all.take(i as int),
        decreases n - i,
    {
        let d = signal[i].minus(m);
        spread.push(d.times(d));
        i = i + 1;
        proof {
            assert(all.take(i as int) =~= all.take(i - 1).push(all[i - 1]));
        }
    }
    proof {
        assert(all.take(i as int) =~= all);
        assert(all.subrange(0, n as int) =~= all);
    }
    let d = signal::mean_of(spread.as_slice(), 0, n).sqrt();
    let mut constant = true;
    let mut k: usize = 0;
    while k < n
        invariant
            k <= n,
            n == signal@.len(),
            constant <==> forall|j: int| 0 <= j < k ==> (#[trigger] signal@[j]).equals(signal@[0]),
        decreases n - k,
    {
        if !signal[k].equals(signal[0]) {
            constant = false;
        }
        k = k + 1;
    }
    let still = constant || d.less(Single { bits: STILL });
    let mut r: Vec<Single> = Vec::new();
    let ghost whole = standardized(signal@);
    let mut i: usize = 0;
    while i < n
        invariant
            i <= n,
            n == signal@.len(),
            m == signal::mean(signal@),
            d == deviation(signal@),
            still == is_still(signal@),
            whole == standardized(signal@),
            r@ == whole.take(i as int),
        decreases n - i,
    {
        if still {
            r.push(Single::zero());
        } else {
            r.push(signal[i].minus(m).over(d));
        }
        i = i + 1;
        proof {
            assert(whole.take(i as int) =~= whole.take(i - 1).push(whole[i - 1]));
        }
    }
    proof {
        assert(whole.take(i as int) =~= whole);
    }
    r
}

/// The power of two that a transform of `n` points is padded to.
pub open spec fn is_padded_length(n: nat, p: nat) -> bool {
    exists|e: nat| p == #[trigger] pow2(e) && n <= p && (e > 0 ==> pow2((e - 1) as nat) < n)
}

/// The power of two, at least `n`, that a transform is padded to. The padding
/// does not change a linear correlation.
pub fn padded_length(n: usize) -> (p: usize)
    requires
        n <= usize::MAX / 2 + 1,
    ensures
        is_padded_length(n as nat, p as nat),
{
    let mut p: usize = 1;
    let ghost mut e: nat = 0;
    proof {
        lemma2_to64();
    }
    while p < n
        invariant
            p == pow2(e),
            p > 0,
            n <= usize::MAX / 2 + 1,
            e > 0 ==> pow2((e - 1) as nat) < n,
        decreases usize::MAX - p,
    {
        proof {
            lemma_pow2_unfold(e + 1);
        }
        p = p * 2;
        proof {
            e = e + 1;
        }
    }
    p
}

/// A signal followed by zeros up to `length`.
pub open spec fn padded(s: Seq<Single>, length: nat) -> Seq<Single> {
    Seq::new(
        length,
        |i: int|
            if i < s.len() {
                s[i]
            } else {
                Single::zero()
            },
    )
}

/// A signal back to front, followed by zeros up to `length`.
pub open spec fn mirrored(s: Seq<Single>, length: nat) -> Seq<Single> {
    padded(s.reverse(), length)
}

/// The first signal as the transform takes it.
pub fn pad(s: &[Single], length: usize) -> (r: Vec<Single>)
    requires
        s@.len() <= length,
    ensures
        r@ == padded(s@, length as nat),
{
    let mut r: Vec<Single> = Vec::new();
    let mut i: usize = 0;
    while i < length
        invariant
            i <= length,
            r@ == padded(s@, length as nat).take(i as int),
        decreases length - i,
    {
        if i < s.len() {
            r.push(s[i]);
        } else {
            r.push(Single::zero());
        }
        i = i + 1;
        proof {
            let all = padded(s@, length as nat);
            assert(all.take(i as int) =~= all.take(i - 1).push(all[i - 1]));
        }
    }
    proof {
        let all = padded(s@, length as nat);
        assert(all.take(i as int) =~= all);
    }
    r
}

/// The second signal as the transform takes it: correlation is convolution with
/// the mirrored signal.
pub fn mirror(s: &[Single], length: usize) -> (r: Vec<Single>)
    requires
        s@.len() <= length,
    ensures
        r@ == mirrored(s@, length as nat),
{
    let n: usize = s.len();
    let mut r: Vec<Single> = Vec::new();
    let mut i: usize = 0;
    while i < length
        invariant
            i <= length,
            n == s@.len(),
            r@ == mirrored(s@, length as nat).take(i as int),
        decreases length - i,
    {
        if i < n {
            r.push(s[n - 1 - i]);
        } else {
            r.push(Single::zero());
        }
        i = i + 1;
        proof {
            let all = mirrored(s@, length as nat);
            assert(all.take(i as int) =~= all.take(i - 1).push(all[i - 1]));
        }
    }
    proof {
        let all = mirrored(s@, length as nat);
        assert(all.take(i as int) =~= all);
    }
    r
}

/// The product of two complex numbers, given by real and imaginary part.
pub open spec fn complex_product(a: (Single, Single), b: (Single, Single)) -> (Single, Single) {
    (a.0.times(b.0).minus(a.1.times(b.1)), a.1.times(b.0).plus(a.0.times(b.1)))
}

/// The products of two transforms, line by line: multiplication in the frequency
/// domain is convolution in the time domain.
pub fn multiply_transforms(a: &[(Single, Single)], b: &[(Single, Single)]) -> (r: Vec<
    (Single, Single),
>)
    requires
        a@.len() == b@.len(),
    ensures
        r@ == Seq::new(a@.len(), |i: int| complex_product(a@[i], b@[i])),
{
    let ghost all = Seq::new(a@.len(), |i: int| complex_product(a@[i], b@[i]));
    let mut r: Vec<(Single, Single)> = Vec::new();
    let mut i: usize = 0;
    while i < a.len()
        invariant
            i <= a@.len(),
            a@.len() == b@.len(),
            all == Seq::new(a@.len(), |j: int| complex_product(a@[j], b@[j])),
            r@ == all.take(i as int),
        decreases a@.len() - i,
    {
        let (p, q) = (a[i], b[i]);
        r.push((p.0.times(q.0).minus(p.1.times(q.1)), p.1.times(q.0).plus(p.0.times(q.1))));
        i = i + 1;
        proof {
            assert(all.take(i as int) =~= all.take(i - 1).push(all[i - 1]));
        }
    }
    proof {
        assert(all.take(i as int) =~= all);
    }
    r
}

/// What a transform back leaves of a correlation: the real parts of the lags,
/// divided by the length of the transform.
pub open spec fn unscaled(reals: Seq<Single>, count: nat) -> Seq<Single> {
    let scale = Single::one().over(Single::from_u64(reals.len() as u64));
    Seq::new(count, |i: int| reals[i].times(scale))
}

/// Reads the correlation off the real parts of the transform back.
pub fn unscale(reals: &[Single], count: usize) -> (r: Vec<Single>)
    requires
        count <= reals@.len(),
    ensures
        r@ == unscaled(reals@, count as nat),
{
    let scale = Single::one().over(Single::from_u64(reals.len() as u64));
    let ghost all = unscaled(reals@, count as nat);
    let mut r: Vec<Single> = Vec::new();
    let mut i: usize = 0;
    while i < count
        invariant
            i <= count <= reals@.len(),
            scale == Single::one().over(Single::from_u64(reals@.len() as u64)),
            all == unscaled(reals@, count as nat),
            r@ == all.take(i as int),
        decreases count - i,
    {
        r.push(reals[i].times(scale));
        i = i + 1;
        proof {
            assert(all.take(i as int) =~= all.take(i - 1).push(all[i - 1]));
        }
    }
    proof {
        assert(all.take(i as int) =~= all);
    }
    r
}

/// Where a curve is highest; of several such places the last.
pub open spec fn summit(s: Seq<Single>) -> nat
    decreases s.len(),
{
    if s.len() <= 1 {
        0
    } else {
        let before = summit(s.drop_last());
        if s.last().less(s[before as int]) {
            before
        } else {
            (s.len() - 1) as nat
        }
    }
}

/// [`summit`] of the samples from `from` on, counted from there.
pub(crate) fn summit_of(s: &[Single], from: usize) -> (r: usize)
    requires
        from < s@.len(),
    ensures
        r == summit(s@.skip(from as int)),
        r < s@.len() - from,
{
    let n: usize = s.len();
    let mut r: usize = 0;
    let mut i: usize = from + 1;
    let ghost part = s@.skip(from as int);
    while i < n
        invariant
            n == s@.len(),
            from < i <= n,
            part == s@.skip(from as int),
            r == summit(part.take(i - from)),
            r < i - from,
        decreases n - i,
    {
        proof {
            assert(part.take(i + 1 - from).drop_last() =~= part.take(i - from));
            assert(part[r as int] == s@[from + r]);
        }
        if !s[i].less(s[from + r]) {
            r = i - from;
        }
        i = i + 1;
    }
    proof {
        assert(part.take(i - from) =~= part);
    }
    r
}

/// Whether two envelopes can be correlated at all.
pub open spec fn comparable(audio_len: nat, gyro_len: nat, env_rate_hz: Single) -> bool {
    audio_len >= 2 && gyro_len >= 2 && !env_rate_hz.at_most(Single::zero())
}

/// The alignment read off a correlation: lag 0 is at index `gyro_len - 1`, and
/// the height of the peak over the number of overlapping points is the
/// correlation coefficient.
pub open spec fn alignment(
    correlation: Seq<Single>,
    audio_len: nat,
    gyro_len: nat,
    env_rate_hz: Single,
) -> SyncResult {
    if !comparable(audio_len, gyro_len, env_rate_hz) || correlation.len() == 0 {
        SyncResult { offset_seconds: Double::zero(), confidence: Single::zero() }
    } else {
        let peak = summit(correlation);
        let lag = peak - (gyro_len - 1);
        let overlap = if audio_len < gyro_len {
            audio_len
        } else {
            gyro_len
        };
        SyncResult {
            offset_seconds: Double::from_i64(lag as i64).over(env_rate_hz.to_double()),
            confidence: correlation[peak as int].over(Single::from_u64(overlap as u64)).clamped(
                Single::zero(),
                Single::one(),
            ),
        }
    }
}

/// Estimates the shift between the audio and gyroscope envelopes from their
/// correlation, of which index `i` is the lag `i - (gyro_len - 1)`.
///
/// `env_rate_hz` is the common rate of both envelopes. A positive offset means
/// the event appears later in the audio than in the video.
pub fn cross_correlate(
    correlation: &[Single],
    audio_len: usize,
    gyro_len: usize,
    env_rate_hz: Single,
) -> (r: SyncResult)
    requires
        correlation@.len() <= i64::MAX,
        gyro_len <= i64::MAX,
    ensures
        r == alignment(correlation@, audio_len as nat, gyro_len as nat, env_rate_hz),
{
    if audio_len < 2 || gyro_len < 2 || env_rate_hz.at_most(Single::zero()) || correlation.len()
        == 0 {
        return SyncResult { offset_seconds: Double::zero(), confidence: Single::zero() };
    }
    let peak = summit_of(correlation, 0);
    proof {
        assert(correlation@.skip(0) =~= correlation@);
    }
    let lag: i64 = peak as i64 - (gyro_len as i64 - 1);
    let overlap: usize = if audio_len < gyro_len {
        audio_len
    } else {
        gyro_len
    };
    SyncResult {
        offset_seconds: Double::from_i64(lag).over(env_rate_hz.to_double()),
        confidence: correlation[peak].over(Single::from_u64(overlap as u64)).clamped(
            Single::zero(),
            Single::one(),
        ),
    }
}

/// How much the mean of the `k` samples from each point on exceeds the mean of
/// the `k` before it; 0 where there are not as many.
pub open spec fn rises(envelope: Seq<Single>, k: nat) -> Seq<Single> {
    Seq::new(
        envelope.len(),
        |i: int|
            if i < k || i + k >= envelope.len() {
                Single::zero()
            } else {
                signal::mean(envelope.subrange(i, i + k)).minus(
                    signal::mean(envelope.subrange(i - k, i)),
                )
            },
    )
}

/// [`rises`], computed.
pub(crate) fn rises_of(envelope: &[Single], k: usize) -> (r: Vec<Single>)
    ensures
        r@ == rises(envelope@, k as nat),
{
    let n: usize = envelope.len();
    let ghost all = rises(envelope@, k as nat);
    let mut r: Vec<Single> = Vec::new();
    let mut i: usize = 0;
    while i < n
        invariant
            i <= n,
            n == envelope@.len(),
            all == rises(envelope@, k as nat),
            r@ == all.take(i as int),
        decreases n - i,
    {
        if i < k || n - i <= k {
            r.push(Single::zero());
        } else {
            let before = signal::mean_of(envelope, i - k, i);
            let after = signal::mean_of(envelope, i, i + k);
            r.push(after.minus(before));
        }
        i = i + 1;
        proof {
            assert(all.take(i as int) =~= all.take(i - 1).push(all[i - 1]));
        }
    }
    proof {
        assert(all.take(i as int) =~= all);
    }
    r
}

/// `r` is the first place where a curve is at least `t`, if there is one.
pub open spec fn first_reaching(s: Seq<Single>, t: Single, r: Option<usize>) -> bool {
    match r {
        Some(i) => {
            &&& i < s.len()
            &&& t.at_most(s[i as int])
            &&& forall|j: int| 0 <= j < i ==> !t.at_most(#[trigger] s[j])
        },
        None => forall|j: int| 0 <= j < s.len() ==> !t.at_most(#[trigger] s[j]),
    }
}

/// Finds the [`first_reaching`] place.
pub(crate) fn find_reaching(s: &[Single], t: Single) -> (r: Option<usize>)
    ensures
        first_reaching(s@, t, r),
{
    let mut i: usize = 0;
    while i < s.len()
        invariant
            i <= s@.len(),
            forall|j: int| 0 <= j < i ==> !t.at_most(#[trigger] s@[j]),
        decreases s@.len() - i,
    {
        if t.at_most(s[i]) {
            return Some(i);
        }
        i = i + 1;
    }
    None
}

/// Samples averaged on each side; 0 is taken as 1.
pub open spec fn window_of(smooth_window: usize) -> nat {
    if smooth_window == 0 {
        1
    } else {
        smooth_window as nat
    }
}

/// `r` is the first place at which an envelope rises by the asked-for part of its
/// largest rise; none where it is too short or rises nowhere.
pub open spec fn rises_at(
    envelope: Seq<Single>,
    smooth_window: usize,
    threshold_fraction: Single,
    r: Option<usize>,
) -> bool {
    let k = window_of(smooth_window);
    let rise = rises(envelope, k);
    let largest = signal::peak(rise);
    if envelope.len() < 2 * k + 1 || largest.at_most(Single::zero()) {
        r is None
    } else {
        first_reaching(
            rise,
            largest.times(threshold_fraction.clamped(Single::zero(), Single::one())),
            r,
        )
    }
}

/// Index of the FIRST sustained rise in `envelope`, or `None` if there is none.
///
/// Take-off is the first time the propellers spin up, not the loudest moment of
/// the clip: a crowd or music may produce bigger jumps later on.
///
/// `smooth_window` is how many samples are averaged on each side of a candidate.
/// `threshold_fraction` is measured against the largest rise in this same clip,
/// so it adapts to the microphone gain and to how far away the drone was.
pub fn first_sustained_rise(
    envelope: &[Single],
    smooth_window: usize,
    threshold_fraction: Single,
) -> (r: Option<usize>)
    ensures
        rises_at(envelope@, smooth_window, threshold_fraction, r),
{
    let k: usize = if smooth_window == 0 {
        1
    } else {
        smooth_window
    };
    let n: usize = envelope.len();
    if n < 3 || (n - 1) / 2 < k {
        return None;
    }
    let rise = rises_of(envelope, k);
    let largest = signal::peak_of(rise.as_slice());
    if largest.at_most(Single::zero()) {
        return None;
    }
    let threshold = largest.times(threshold_fraction.clamped(Single::zero(), Single::one()));
    find_reaching(rise.as_slice(), threshold)
}

/// Bits of 2.0: seconds the speed must stay off the ground floor for a rise to
/// count.
pub const LIFT_OFF_STAY_S: u32 = 0x4000_0000;

/// Bits of 5.0: seconds over which the speed must remain elevated, as a median.
pub const LIFT_OFF_HOLD_S: u32 = 0x40a0_0000;

/// Bits of 4.0, 2.0 and 3.0: multiples of the ground floor that count as a rise,
/// as still moving, and as sustained flight.
pub const LIFT_OFF_RISE: u32 = 0x4080_0000;

pub const LIFT_OFF_MOVING: u32 = 0x4000_0000;

pub const LIFT_OFF_SUSTAIN: u32 = 0x4040_0000;

/// Bits of 0.001, the least ground floor.
pub const LEAST_FLOOR: u32 = 0x3a83_126f;

/// Samples in a stretch of time.
pub open spec fn samples_in(seconds: Single, rate: Single) -> nat {
    let n = seconds.times(rate).trunc_u64();
    if n <= usize::MAX {
        n as nat
    } else {
        usize::MAX as nat
    }
}

/// [`samples_in`], computed.
pub(crate) fn samples_over(seconds: Single, rate: Single) -> (r: usize)
    ensures
        r == samples_in(seconds, rate),
{
    let n = seconds.times(rate).trunc_u64();
    if n <= usize::MAX as u64 {
        n as usize
    } else {
        usize::MAX
    }
}

/// Speed of an aircraft at rest: the lowest tenth of the clip.
pub open spec fn ground_floor(speed: Seq<Single>) -> Single {
    order::kth(speed, speed.len() / 10).greater_of(Single { bits: LEAST_FLOOR })
}

/// The end of a window of `hold` samples from `j` on, of `n`.
pub open spec fn window_end(j: nat, hold: nat, n: nat) -> nat {
    if j + hold < n {
        j + hold
    } else {
        n
    }
}

/// The aircraft is flying from `j` on: the speed is risen, does not fall back to
/// the floor while it has to stay off it, and holds as a median.
pub open spec fn flies_from(speed: Seq<Single>, j: int, stay: nat, hold: nat) -> bool {
    let floor = ground_floor(speed);
    let moving = floor.times(Single { bits: LIFT_OFF_MOVING });
    &&& !speed[j].less(floor.times(Single { bits: LIFT_OFF_RISE }))
    &&& forall|i: int| j <= i < j + stay ==> !(#[trigger] speed[i]).less(moving)
    &&& !order::median(
        speed.subrange(j, window_end(j as nat, hold, speed.len()) as int),
    ).less(floor.times(Single { bits: LIFT_OFF_SUSTAIN }))
}

/// The motion that is under way at `j` started at `k`.
pub open spec fn motion_starts(speed: Seq<Single>, k: int, j: int) -> bool {
    let moving = ground_floor(speed).times(Single { bits: LIFT_OFF_MOVING });
    &&& 0 <= k <= j
    &&& forall|i: int| k <= i < j ==> moving.at_most(#[trigger] speed[i])
    &&& k > 0 ==> !moving.at_most(speed[k - 1])
}

/// So many samples at a rate are enough to look for a lift-off in.
pub open spec fn long_enough(n: nat, rate: Single) -> bool {
    let stay = samples_in(Single { bits: LIFT_OFF_STAY_S }, rate);
    let hold = samples_in(Single { bits: LIFT_OFF_HOLD_S }, rate);
    stay > 0 && hold <= n && stay <= n
}

/// Whether so many samples at a rate are enough to look for a lift-off in.
pub fn is_long_enough(n: usize, rate: Single) -> (r: bool)
    ensures
        r == long_enough(n as nat, rate),
{
    let stay = samples_over(Single { bits: LIFT_OFF_STAY_S }, rate);
    let hold = samples_over(Single { bits: LIFT_OFF_HOLD_S }, rate);
    stay > 0 && hold <= n && stay <= n
}

/// `r` is where the aircraft leaves the ground: the start of the motion in which
/// it first flies.
pub open spec fn lifts_off(speed: Seq<Single>, rate: Single, r: Option<usize>) -> bool {
    let n = speed.len();
    let stay = samples_in(Single { bits: LIFT_OFF_STAY_S }, rate);
    let hold = samples_in(Single { bits: LIFT_OFF_HOLD_S }, rate);
    if !long_enough(n, rate) {
        r is None
    } else {
        match r {
            None => forall|j: int| 0 <= j < n - stay ==> !#[trigger] flies_from(speed, j, stay, hold),
            Some(k) => exists|j: int|
                {
                    &&& 0 <= j < n - stay
                    &&& #[trigger] flies_from(speed, j, stay, hold)
                    &&& forall|i: int| 0 <= i < j ==> !#[trigger] flies_from(speed, i, stay, hold)
                    &&& motion_starts(speed, k as int, j)
                },
        }
    }
}

/// Whether the speed stays off the floor over `from..to`.
fn keeps_moving(speed: &[Single], from: usize, to: usize, moving: Single) -> (b: bool)
    requires
        from <= to <= speed@.len(),
    ensures
        b == (forall|i: int| from <= i < to ==> !(#[trigger] speed@[i]).less(moving)),
{
    let mut i: usize = from;
    while i < to
        invariant
            from <= i <= to <= speed@.len(),
            forall|j: int| from <= j < i ==> !(#[trigger] speed@[j]).less(moving),
        decreases to - i,
    {
        if speed[i].less(moving) {
            return false;
        }
        i = i + 1;
    }
    true
}

/// Index where the aircraft leaves the ground, read from its angular speed in
/// degrees per second, or `None` if it never does.
///
/// Three things have to be true of the instant reported: the speed leaves the
/// floor for good, it is sustained, and the instant is the start of the motion,
/// not the sample that crossed the threshold. The floor is measured in the clip
/// itself, so the rule does not depend on the camera's noise level.
pub fn lift_off(speed: &[Single], rate: Single) -> (r: Option<usize>)
    requires
        long_enough(speed@.len(), rate) ==> order::all_numbers(speed@),
    ensures
        lifts_off(speed@, rate, r),
{
    let n: usize = speed.len();
    if !is_long_enough(n, rate) {
        return None;
    }
    let stay = samples_over(Single { bits: LIFT_OFF_STAY_S }, rate);
    let hold = samples_over(Single { bits: LIFT_OFF_HOLD_S }, rate);
    proof {
        assert(speed@.subrange(0, n as int) =~= speed@);
    }
    let floor = order::kth_of(speed, 0, n, n / 10).greater_of(Single { bits: LEAST_FLOOR });
    let rise = floor.times(Single { bits: LIFT_OFF_RISE });
    let moving = floor.times(Single { bits: LIFT_OFF_MOVING });
    let sustained = floor.times(Single { bits: LIFT_OFF_SUSTAIN });
    let mut j: usize = 0;
    while j < n - stay
        invariant
            j <= n - stay,
            n == speed@.len(),
            0 < stay <= n,
            hold <= n,
            stay == samples_in(Single { bits: LIFT_OFF_STAY_S }, rate),
            hold == samples_in(Single { bits: LIFT_OFF_HOLD_S }, rate),
            order::all_numbers(speed@),
            floor == ground_floor(speed@),
            rise == floor.times(Single { bits: LIFT_OFF_RISE }),
            moving == floor.times(Single { bits: LIFT_OFF_MOVING }),
            sustained == floor.times(Single { bits: LIFT_OFF_SUSTAIN }),
            forall|i: int|
                0 <= i < j ==> !#[trigger] flies_from(speed@, i, stay as nat, hold as nat),
        decreases n - stay - j,
    {
        let end: usize = if n - j <= hold {
            n
        } else {
            j + hold
        };
        proof {
            let part = speed@.subrange(j as int, end as int);
            assert forall|i: int| 0 <= i < part.len() implies !(#[trigger] part[i]).nan() by {
                assert(!speed@[j + i].nan());
            }
        }
        if !speed[j].less(rise) && keeps_moving(speed, j, j + stay, moving) && !order::median_of(
            speed,
            j,
            end,
        ).less(sustained) {
            assert(flies_from(speed@, j as int, stay as nat, hold as nat));
            let mut k: usize = j;
            while k > 0 && moving.at_most(speed[k - 1])
                invariant
                    k <= j < speed@.len(),
                    forall|i: int| k <= i < j ==> moving.at_most(#[trigger] speed@[i]),
                decreases k,
            {
                k = k - 1;
            }
            assert(motion_starts(speed@, k as int, j as int));
            return Some(k);
        }
        j = j + 1;
    }
    None
}

} // verus!
