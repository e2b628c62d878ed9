//! Vibration envelopes used by the automatic alignment.
//!
//! The propellers produce a vibration that shows in both signals: as sound in
//! the microphone and as oscillation in the gyroscope. When the rotation changes,
//! the intensity changes in both. The gyroscope samples slowly and sees only an
//! alias of the vibration, so the spectra cannot be compared; the energy over
//! time can.
//!
//! Cosines, Fourier transforms and logarithms come from the caller; here stands
//! what they are taken of and what is made of them.

use crate::audio::signal;
use crate::audio::sync;
use crate::ieee::double::Double;
use crate::ieee::single::Single;
use vstd::arithmetic::div_mod::*;
use vstd::prelude::*;

verus! {

/// Size of a spectrum's window, in samples.
pub const STFT_WINDOW: usize = 2048;

/// Distance between two windows.
pub const STFT_HOP: usize = 512;

/// Lines of a spectrum that are used.
pub const STFT_BINS: usize = 1024;

/// Bits of 150.0 and 900.0, the default band of the blades in Hz.
pub const DEFAULT_BAND_LO_HZ: u32 = 0x4316_0000;

pub const DEFAULT_BAND_HI_HZ: u32 = 0x4461_0000;

/// Bits of 30.0, the cutoff of the high-pass applied to the gyroscope in Hz. It
/// removes intentional motion and leaves the vibration.
pub const DEFAULT_HIGHPASS_HZ: u32 = 0x41f0_0000;

/// Bits of 80.0: below this the search for a band ignores the spectrum, which is
/// wind and handling noise there.
pub const AUTO_BAND_MIN_HZ: u32 = 0x42a0_0000;

/// Bits of 0.4, the relative width of the band around a peak.
pub const AUTO_BAND_WIDTH: u32 = 0x3ecc_cccd;

/// Bits of 1e-9, which keeps the logarithm of silence finite.
pub const LOG_FLOOR: u32 = 0x3089_705f;

/// Bits of 0.5.
pub const HALF: u32 = 0x3f00_0000;

/// Bits of 1000.0, milliseconds in a second.
pub const MILLIS: u64 = 0x408f_4000_0000_0000;

/// Parameters of the envelopes.
#[derive(Debug, Clone, Copy, PartialEq)]
pub struct FeatureParams {
    /// Start of the fixed band, in Hz.
    pub band_lo_hz: Single,
    /// End of the fixed band, in Hz.
    pub band_hi_hz: Single,
    /// Whether the band is found from the signal itself, the limits above being
    /// used only where that fails.
    pub auto_band: bool,
    /// Cutoff of the high-pass applied to the gyroscope, in Hz.
    pub highpass_hz: Single,
}

impl Default for FeatureParams {
    fn default() -> (r: FeatureParams)
        ensures
            r.band_lo_hz == (Single { bits: DEFAULT_BAND_LO_HZ }),
            r.band_hi_hz == (Single { bits: DEFAULT_BAND_HI_HZ }),
            r.auto_band,
            r.highpass_hz == (Single { bits: DEFAULT_HIGHPASS_HZ }),
    {
        FeatureParams {
            band_lo_hz: Single { bits: DEFAULT_BAND_LO_HZ },
            band_hi_hz: Single { bits: DEFAULT_BAND_HI_HZ },
            auto_band: true,
            highpass_hz: Single { bits: DEFAULT_HIGHPASS_HZ },
        }
    }
}

/// How many windows fit into `length` samples.
pub open spec fn window_count(length: nat) -> nat {
    if length < STFT_WINDOW {
        0
    } else {
        ((length - STFT_WINDOW) as nat / STFT_HOP as nat + 1) as nat
    }
}

/// Starts of the windows of a signal.
pub fn window_starts(length: usize) -> (r: Vec<usize>)
    ensures
        r@ == Seq::new(window_count(length as nat), |i: int| (i * STFT_HOP) as usize),
{
    let ghost all = Seq::new(window_count(length as nat), |i: int| (i * STFT_HOP) as usize);
    let mut r: Vec<usize> = Vec::new();
    let mut pos: usize = 0;
    proof {
        assert(all.take(0) =~= Seq::empty());
    }
    while length >= STFT_WINDOW && pos <= length - STFT_WINDOW
        invariant
            pos == r@.len() * STFT_HOP,
            r@.len() <= all.len(),
            all == Seq::new(window_count(length as nat), |i: int| (i * STFT_HOP) as usize),
            r@ == all.take(r@.len() as int),
            length >= STFT_WINDOW ==> pos <= length - STFT_WINDOW + STFT_HOP,
        decreases length + STFT_HOP - pos,
    {
        let ghost n = r@.len() as int;
        r.push(pos);
        pos = pos + STFT_HOP;
        proof {
            assert(all.take(n + 1) =~= all.take(n).push(all[n]));
        }
    }
    proof {
        assert(r@.len() == all.len());
        assert(all.take(r@.len() as int) =~= all);
    }
    r
}

/// The angle at point `i` of a window.
pub open spec fn window_angle(i: int) -> Single {
    Single { bits: signal::TURN }.times(Single::from_u64(i as u64)).over(
        Single::from_u64(STFT_WINDOW as u64),
    )
}

/// The angles whose cosines [`hann_window`] needs.
pub fn window_angles() -> (r: Vec<Single>)
    ensures
        r@ == Seq::new(STFT_WINDOW as nat, |i: int| window_angle(i)),
{
    let ghost all = Seq::new(STFT_WINDOW as nat, |i: int| window_angle(i));
    let length = Single::from_u64(STFT_WINDOW as u64);
    let mut r: Vec<Single> = Vec::new();
    let mut i: usize = 0;
    while i < STFT_WINDOW
        invariant
            i <= STFT_WINDOW,
            length == Single::from_u64(STFT_WINDOW as u64),
            all == Seq::new(STFT_WINDOW as nat, |j: int| window_angle(j)),
            r@ == all.take(i as int),
        decreases STFT_WINDOW - i,
    {
        r.push(Single { bits: signal::TURN }.times(Single::from_u64(i as u64)).over(length));
        i = i + 1;
        proof {
            assert(all.take(i as int) =~= all.take(i - 1).push(all[i - 1]));
        }
    }
    proof {
        assert(all.take(i as int) =~= all);
    }
    r
}

/// A point of a Hann window, from the cosine of its angle.
pub open spec fn hann(cosine: Single) -> Single {
    Single { bits: HALF }.times(Single::one().minus(cosine))
}

/// Hann window, from the cosines of its angles.
///
/// It smooths the edges of each window, so that the artificial break at the cut
/// does not spread energy over the whole spectrum.
pub fn hann_window(cosines: &[Single]) -> (r: Vec<Single>)
    ensures
        r@ == Seq::new(cosines@.len(), |i: int| hann(cosines@[i])),
{
    let ghost all = Seq::new(cosines@.len(), |i: int| hann(cosines@[i]));
    let mut r: Vec<Single> = Vec::new();
    let mut i: usize = 0;
    while i < cosines.len()
        invariant
            i <= cosines@.len(),
            all == Seq::new(cosines@.len(), |j: int| hann(cosines@[j])),
            r@ == all.take(i as int),
        decreases cosines@.len() - i,
    {
        r.push(Single { bits: HALF }.times(Single::one().minus(cosines[i])));
        i = i + 1;
        proof {
            assert(all.take(i as int) =~= all.take(i - 1).push(all[i - 1]));
        }
    }
    proof {
        assert(all.take(i as int) =~= all);
    }
    r
}

/// The samples from `start` on, weighted by a window.
pub fn windowed(samples: &[Single], start: usize, window: &[Single]) -> (r: Vec<Single>)
    requires
        start + window@.len() <= samples@.len(),
    ensures
        r@ == Seq::new(window@.len(), |i: int| samples@[start + i].times(window@[i])),
{
    let ghost all = Seq::new(window@.len(), |i: int| samples@[start + i].times(window@[i]));
    let end: usize = samples.len();
    let mut r: Vec<Single> = Vec::new();
    let mut i: usize = 0;
    while i < window.len()
        invariant
            i <= window@.len(),
            end == samples@.len(),
            start + window@.len() <= end,
            all == Seq::new(window@.len(), |j: int| samples@[start + j].times(window@[j])),
            r@ == all.take(i as int),
        decreases window@.len() - i,
    {
        r.push(samples[start + i].times(window[i]));
        i = i + 1;
        proof {
            assert(all.take(i as int) =~= all.take(i - 1).push(all[i - 1]));
        }
    }
    proof {
        assert(all.take(i as int) =~= all);
    }
    r
}

/// Power of a line of a transform, given by its real and imaginary part.
pub open spec fn power(line: (Single, Single)) -> Single {
    line.0.times(line.0).plus(line.1.times(line.1))
}

/// Power spectrum of a window, from its Fourier transform.
pub fn power_spectrum(transform: &[(Single, Single)]) -> (r: Vec<Single>)
    requires
        transform@.len() >= STFT_BINS,
    ensures
        r@ == Seq::new(STFT_BINS as nat, |i: int| power(transform@[i])),
{
    let ghost all = Seq::new(STFT_BINS as nat, |i: int| power(transform@[i]));
    let mut r: Vec<Single> = Vec::new();
    let mut i: usize = 0;
    while i < STFT_BINS
        invariant
            i <= STFT_BINS,
            transform@.len() >= STFT_BINS,
            all == Seq::new(STFT_BINS as nat, |j: int| power(transform@[j])),
            r@ == all.take(i as int),
        decreases STFT_BINS - i,
    {
        let (re, im) = transform[i];
        r.push(re.times(re).plus(im.times(im)));
        i = i + 1;
        proof {
            assert(all.take(i as int) =~= all.take(i - 1).push(all[i - 1]));
        }
    }
    proof {
        assert(all.take(i as int) =~= all);
    }
    r
}

/// The powers of line `bin` over all windows.
pub open spec fn line_over_time(spectra: Seq<Vec<Single>>, bin: int) -> Seq<Single> {
    Seq::new(spectra.len(), |w: int| spectra[w]@[bin])
}

/// Mean power of each line over time.
pub open spec fn averaged(spectra: Seq<Vec<Single>>) -> Seq<Single> {
    Seq::new(
        if spectra.len() == 0 {
            0
        } else {
            STFT_BINS as nat
        },
        |bin: int| signal::mean_from_zero(line_over_time(spectra, bin)),
    )
}

/// Mean spectrum of a signal over time, from the power spectra of its windows.
///
/// The signature of the blades is persistent, so it shows in the mean even when
/// single events are louder.
pub fn average_spectrum(spectra: &[Vec<Single>]) -> (r: Vec<Single>)
    requires
        forall|w: int| 0 <= w < spectra@.len() ==> (#[trigger] spectra@[w])@.len() >= STFT_BINS,
    ensures
        r@ == averaged(spectra@),
{
    let n: usize = spectra.len();
    let mut r: Vec<Single> = Vec::new();
    if n == 0 {
        return r;
    }
    let ghost all = averaged(spectra@);
    let mut bin: usize = 0;
    while bin < STFT_BINS
        invariant
            bin <= STFT_BINS,
            n == spectra@.len(),
            n > 0,
            forall|w: int| 0 <= w < spectra@.len() ==> (#[trigger] spectra@[w])@.len() >= STFT_BINS,
            all == averaged(spectra@),
            r@ == all.take(bin as int),
        decreases STFT_BINS - bin,
    {
        let ghost line = line_over_time(spectra@, bin as int);
        let mut total = Single::zero();
        let mut w: usize = 0;
        proof {
            assert(line.take(0) =~= Seq::empty());
        }
        while w < n
            invariant
                w <= n,
                n == spectra@.len(),
                bin < STFT_BINS,
                forall|v: int|
                    0 <= v < spectra@.len() ==> (#[trigger] spectra@[v])@.len() >= STFT_BINS,
                line == line_over_time(spectra@, bin as int),
                total == signal::sum_from_zero(line.take(w as int)),
            decreases n - w,
        {
            assert(spectra@[w as int]@.len() >= STFT_BINS);
            total = total.plus(spectra[w][bin]);
            w = w + 1;
            proof {
                assert(line.take(w as int).drop_last() =~= line.take(w - 1));
            }
        }
        proof {
            assert(line.take(w as int) =~= line);
        }
        r.push(total.over(Single::from_u64(n as u64)));
        bin = bin + 1;
        proof {
            assert(all.take(bin as int) =~= all.take(bin - 1).push(all[bin - 1]));
        }
    }
    proof {
        assert(all.take(bin as int) =~= all);
    }
    r
}

/// Distance between two lines of a spectrum, in Hz.
pub open spec fn line_spacing(sample_rate: u32) -> Single {
    Single::from_u64(sample_rate as u64).over(Single::from_u64(STFT_WINDOW as u64))
}

/// The first line that the search for a band looks at.
pub open spec fn first_line(sample_rate: u32) -> u64 {
    (Single { bits: AUTO_BAND_MIN_HZ }).over(line_spacing(sample_rate)).ceil_u64()
}

/// Frequency of the highest line from `from` on.
pub open spec fn peak_frequency(spectrum: Seq<Single>, from: u64, sample_rate: u32) -> Single {
    Single::from_u64((from + sync::summit(spectrum.skip(from as int))) as u64).times(
        line_spacing(sample_rate),
    )
}

/// The dominant band of a mean spectrum, around its highest line.
pub open spec fn dominant_band(spectrum: Seq<Single>, sample_rate: u32) -> Option<
    (Single, Single),
> {
    let from = first_line(sample_rate);
    if from >= spectrum.len() {
        None
    } else {
        let hz = peak_frequency(spectrum, from, sample_rate);
        let width = Single { bits: AUTO_BAND_WIDTH };
        if hz.at_most(Single::zero()) {
            None
        } else {
            Some((hz.times(Single::one().minus(width)), hz.times(Single::one().plus(width))))
        }
    }
}

/// Finds the dominant band of the vibration from a mean spectrum, without
/// assuming any rotation speed. `None` where it allows no estimate; the fixed
/// band is then used.
pub fn detect_band(spectrum: &[Single], sample_rate: u32) -> (r: Option<(Single, Single)>)
    ensures
        r == dominant_band(spectrum@, sample_rate),
{
    let n: usize = spectrum.len();
    let spacing = Single::from_u64(sample_rate as u64).over(Single::from_u64(STFT_WINDOW as u64));
    let from = (Single { bits: AUTO_BAND_MIN_HZ }).over(spacing).ceil_u64();
    if from >= n as u64 {
        return None;
    }
    let start: usize = from as usize;
    let peak = sync::summit_of(spectrum, start);
    let hz = Single::from_u64((start + peak) as u64).times(spacing);
    if hz.at_most(Single::zero()) {
        return None;
    }
    let width = Single { bits: AUTO_BAND_WIDTH };
    Some((hz.times(Single::one().minus(width)), hz.times(Single::one().plus(width))))
}

/// The band to measure: the one found, where it is asked for and was found, else
/// the fixed one.
pub open spec fn band_in_use(
    params: FeatureParams,
    found: Option<(Single, Single)>,
) -> (Single, Single) {
    match found {
        Some(band) => if params.auto_band {
            band
        } else {
            (params.band_lo_hz, params.band_hi_hz)
        },
        None => (params.band_lo_hz, params.band_hi_hz),
    }
}

/// Lines of a band: from the first to the one after the last.
pub open spec fn lines_of(band: (Single, Single), sample_rate: u32) -> (nat, nat) {
    let low = band.0.over(line_spacing(sample_rate)).trunc_u64();
    let high = band.1.over(line_spacing(sample_rate)).ceil_u64();
    (
        if low > 1 {
            low as nat
        } else {
            1
        },
        if high < STFT_BINS {
            high as nat
        } else {
            STFT_BINS as nat
        },
    )
}

/// Energy of a window in a band, ready for the logarithm.
pub open spec fn window_energy(power: Seq<Single>, from: nat, to: nat) -> Single {
    signal::total(power.subrange(from as int, to as int)).plus(Single { bits: LOG_FLOOR })
}

/// Energies of the audio in the band of the blades, and their rate in Hz.
///
/// `spectra` holds the power spectrum of each window and `found` the band found
/// by [`detect_band`]. The envelope is the natural logarithm of the energies:
/// they vary by orders of magnitude, and the logarithm keeps a single peak from
/// dominating the correlation. Nothing comes back for a band without lines.
pub fn audio_envelope(
    spectra: &[Vec<Single>],
    sample_rate: u32,
    params: &FeatureParams,
    found: Option<(Single, Single)>,
) -> (r: (Vec<Single>, Single))
    requires
        forall|w: int| 0 <= w < spectra@.len() ==> (#[trigger] spectra@[w])@.len() >= STFT_BINS,
    ensures
        ({
            let (from, to) = lines_of(band_in_use(*params, found), sample_rate);
            if spectra@.len() == 0 || sample_rate == 0 || to <= from {
                r.0@ == Seq::<Single>::empty() && r.1 == Single::zero()
            } else {
                &&& r.0@ == Seq::new(
                    spectra@.len(),
                    |w: int| window_energy(spectra@[w]@, from, to),
                )
                &&& r.1 == Single::from_u64(sample_rate as u64).over(
                    Single::from_u64(STFT_HOP as u64),
                )
            }
        }),
{
    if spectra.len() == 0 || sample_rate == 0 {
        return (Vec::new(), Single::zero());
    }
    let fixed = (params.band_lo_hz, params.band_hi_hz);
    let band = match found {
        Some(band) => if params.auto_band {
            band
        } else {
            fixed
        },
        None => fixed,
    };
    let spacing = Single::from_u64(sample_rate as u64).over(Single::from_u64(STFT_WINDOW as u64));
    let low = band.0.over(spacing).trunc_u64();
    let high = band.1.over(spacing).ceil_u64();
    let low: u64 = if low > 1 {
        low
    } else {
        1
    };
    let high: u64 = if high < STFT_BINS as u64 {
        high
    } else {
        STFT_BINS as u64
    };
    if high <= low {
        return (Vec::new(), Single::zero());
    }
    let from: usize = low as usize;
    let to: usize = high as usize;
    let n: usize = spectra.len();
    let ghost all = Seq::new(
        spectra@.len(),
        |w: int| window_energy(spectra@[w]@, from as nat, to as nat),
    );
    let mut envelope: Vec<Single> = Vec::new();
    let mut w: usize = 0;
    proof {
        assert(all.take(0) =~= Seq::empty());
    }
    while w < n
        invariant
            w <= n,
            n == spectra@.len(),
            from < to <= STFT_BINS,
            forall|v: int| 0 <= v < spectra@.len() ==> (#[trigger] spectra@[v])@.len() >= STFT_BINS,
            all == Seq::new(
                spectra@.len(),
                |v: int| window_energy(spectra@[v]@, from as nat, to as nat),
            ),
            envelope@ == all.take(w as int),
        decreases n - w,
    {
        assert(spectra@[w as int]@.len() >= STFT_BINS);
        let energy = signal::total_of(spectra[w].as_slice(), from, to);
        envelope.push(energy.plus(Single { bits: LOG_FLOOR }));
        w = w + 1;
        proof {
            assert(all.take(w as int) =~= all.take(w - 1).push(all[w - 1]));
        }
    }
    proof {
        assert(all.take(w as int) =~= all);
    }
    (envelope, Single::from_u64(sample_rate as u64).over(Single::from_u64(STFT_HOP as u64)))
}

/// Weight of the past in the high-pass.
pub open spec fn highpass_weight(sample_rate: Single, cutoff_hz: Single) -> Single {
    let rc = Single::one().over((Single { bits: signal::TURN }).times(cutoff_hz));
    let dt = Single::one().over(sample_rate);
    rc.over(rc.plus(dt))
}

/// A first-order high-pass: each value follows the change of the signal and
/// decays by `alpha`.
pub open spec fn highpass_at(s: Seq<Single>, alpha: Single, i: nat) -> Single
    decreases i,
{
    if i == 0 {
        Single::zero()
    } else {
        alpha.times(highpass_at(s, alpha, (i - 1) as nat).plus(s[i as int]).minus(s[i - 1]))
    }
}

/// A signal after the high-pass; nothing without a sample rate.
pub open spec fn highpassed(s: Seq<Single>, sample_rate: Single, cutoff_hz: Single) -> Seq<
    Single,
> {
    if sample_rate.at_most(Single::zero()) {
        Seq::empty()
    } else {
        Seq::new(
            s.len(),
            |i: int| highpass_at(s, highpass_weight(sample_rate, cutoff_hz), i as nat),
        )
    }
}

/// First-order high-pass filter.
///
/// Simple on purpose: it removes the slow component of intentional motion; what
/// matters for the correlation is the envelope that results.
pub fn highpass(signal: &[Single], sample_rate: Single, cutoff_hz: Single) -> (out: Vec<Single>)
    ensures
        out@ == highpassed(signal@, sample_rate, cutoff_hz),
{
    let mut out: Vec<Single> = Vec::new();
    let n: usize = signal.len();
    if n == 0 || sample_rate.at_most(Single::zero()) {
        proof {
            assert(out@ =~= highpassed(signal@, sample_rate, cutoff_hz));
        }
        return out;
    }
    let rc = Single::one().over((Single { bits: signal::TURN }).times(cutoff_hz));
    let dt = Single::one().over(sample_rate);
    let alpha = rc.over(rc.plus(dt));
    let ghost all = highpassed(signal@, sample_rate, cutoff_hz);
    out.push(Single::zero());
    proof {
        assert(all.take(1) =~= seq![all[0]]);
    }
    let mut i: usize = 1;
    while i < n
        invariant
            1 <= i <= n,
            n == signal@.len(),
            alpha == highpass_weight(sample_rate, cutoff_hz),
            !sample_rate.at_most(Single::zero()),
            all == highpassed(signal@, sample_rate, cutoff_hz),
            out@ == all.take(i as int),
        decreases n - i,
    {
        let value = alpha.times(out[i - 1].plus(signal[i]).minus(signal[i - 1]));
        out.push(value);
        i = i + 1;
        proof {
            assert(all.take(i as int) =~= all.take(i - 1).push(all[i - 1]));
        }
    }
    proof {
        assert(all.take(i as int) =~= all);
    }
    out
}

/// A reading of the gyroscope: time in milliseconds and rotation on three axes.
pub type GyroSample = (Double, [Double; 3]);

/// Length of a rotation, whatever its axis.
pub open spec fn rotation(v: [Double; 3]) -> Single {
    v[0].times(v[0]).plus(v[1].times(v[1])).plus(v[2].times(v[2])).sqrt().to_single()
}

/// Lengths of the rotations of some readings.
pub open spec fn rotations(gyro: Seq<GyroSample>) -> Seq<Single> {
    Seq::new(gyro.len(), |i: int| rotation(gyro[i].1))
}

/// Time covered by some readings, in seconds.
pub open spec fn covered(gyro: Seq<GyroSample>) -> Double {
    gyro.last().0.minus(gyro[0].0).over(Double { bits: MILLIS })
}

/// Rate of some readings in Hz, from their timestamps.
pub open spec fn gyro_rate(gyro: Seq<GyroSample>) -> Single {
    Double::from_u64(gyro.len() as u64).over(covered(gyro)).to_single()
}

/// Readings per point of an envelope at `target_rate_hz`, at least one.
pub open spec fn readings_per_point(rate: Single, target_rate_hz: Single) -> nat {
    let n = rate.over(target_rate_hz).round_i64();
    if n > 1 {
        if n <= usize::MAX {
            n as nat
        } else {
            usize::MAX as nat
        }
    } else {
        1
    }
}

/// Squares of some samples.
pub open spec fn powers(s: Seq<Single>) -> Seq<Single> {
    Seq::new(s.len(), |i: int| s[i].times(s[i]))
}

/// Energies of a signal in groups of `size`, ready for the logarithm.
pub open spec fn group_energies(s: Seq<Single>, size: nat) -> Seq<Single> {
    Seq::new(
        s.len() / size,
        |b: int|
            signal::total(powers(s.subrange(b * size, b * size + size))).plus(
                Single { bits: LOG_FLOOR },
            ),
    )
}

/// Energies of the vibration that some readings show.
pub open spec fn gyro_energies(
    gyro: Seq<GyroSample>,
    target_rate_hz: Single,
    params: FeatureParams,
) -> Seq<Single> {
    if gyro.len() < 2 || target_rate_hz.at_most(Single::zero()) || covered(gyro).at_most(
        Double::zero(),
    ) {
        Seq::empty()
    } else {
        let rate = gyro_rate(gyro);
        group_energies(
            highpassed(rotations(gyro), rate, params.highpass_hz),
            readings_per_point(rate, target_rate_hz),
        )
    }
}

/// [`rotations`], computed.
fn measure_rotations(gyro: &[GyroSample]) -> (r: Vec<Single>)
    ensures
        r@ == rotations(gyro@),
{
    let n: usize = gyro.len();
    let ghost all = rotations(gyro@);
    let mut r: Vec<Single> = Vec::new();
    let mut i: usize = 0;
    while i < n
        invariant
            i <= n,
            n == gyro@.len(),
            all == rotations(gyro@),
            r@ == all.take(i as int),
        decreases n - i,
    {
        let v = gyro[i].1;
        let sum = v[0].times(v[0]).plus(v[1].times(v[1])).plus(v[2].times(v[2]));
        r.push(sum.sqrt().to_single());
        i = i + 1;
        proof {
            assert(all.take(i as int) =~= all.take(i - 1).push(all[i - 1]));
        }
    }
    proof {
        assert(all.take(i as int) =~= all);
    }
    r
}

/// Sum of the squares of the samples `from..to`.
fn energy_of(s: &[Single], from: usize, to: usize) -> (r: Single)
    requires
        from <= to <= s@.len(),
    ensures
        r == signal::total(powers(s@.subrange(from as int, to as int))),
{
    let ghost all = powers(s@.subrange(from as int, to as int));
    let mut r = Single { bits: signal::NOTHING };
    let mut i: usize = from;
    proof {
        assert(all.take(0) =~= Seq::empty());
    }
    while i < to
        invariant
            from <= i <= to <= s@.len(),
            all == powers(s@.subrange(from as int, to as int)),
            r == signal::total(all.take(i - from)),
        decreases to - i,
    {
        r = r.plus(s[i].times(s[i]));
        i = i + 1;
        proof {
            assert(all.take(i - from).drop_last() =~= all.take(i - 1 - from));
        }
    }
    proof {
        assert(all.take(i - from) =~= all);
    }
    r
}

/// Energies of the vibration read by the gyroscope, at the rate of the audio
/// envelope, so that the two can be correlated.
///
/// The signal is the length of the rotation, which does not depend on how the
/// drone is oriented. The envelope is the natural logarithm of the energies.
pub fn gyro_envelope(
    gyro: &[GyroSample],
    target_rate_hz: Single,
    params: &FeatureParams,
) -> (r: Vec<Single>)
    ensures
        r@ == gyro_energies(gyro@, target_rate_hz, *params),
{
    let mut envelope: Vec<Single> = Vec::new();
    let n: usize = gyro.len();
    if n < 2 || target_rate_hz.at_most(Single::zero()) {
        return envelope;
    }
    let duration = gyro[n - 1].0.minus(gyro[0].0).over(Double { bits: MILLIS });
    if duration.at_most(Double::zero()) {
        return envelope;
    }
    let rate = Double::from_u64(n as u64).over(duration).to_single();
    let magnitude = measure_rotations(gyro);
    let filtered = highpass(magnitude.as_slice(), rate, params.highpass_hz);
    let rounded: i64 = rate.over(target_rate_hz).round_i64();
    let size: usize = if rounded > 1 {
        if rounded as u64 <= usize::MAX as u64 {
            rounded as usize
        } else {
            usize::MAX
        }
    } else {
        1
    };
    let length: usize = filtered.len();
    let count: usize = length / size;
    let ghost all = group_energies(filtered@, size as nat);
    proof {
        lemma_fundamental_div_mod(length as int, size as int);
        lemma_mod_bound(length as int, size as int);
        assert(count * size <= length) by (nonlinear_arith)
            requires
                length == size * count + length as int % size as int,
                length as int % size as int >= 0,
        ;
        assert(all.take(0) =~= Seq::empty());
    }
    let mut b: usize = 0;
    while b < count
        invariant
            b <= count,
            size > 0,
            length == filtered@.len(),
            count == length / size,
            count * size <= length,
            all == group_energies(filtered@, size as nat),
            envelope@ == all.take(b as int),
        decreases count - b,
    {
        proof {
            assert(b * size + size <= count * size) by (nonlinear_arith)
                requires
                    b + 1 <= count,
            ;
        }
        let from: usize = b * size;
        let energy = energy_of(filtered.as_slice(), from, from + size);
        envelope.push(energy.plus(Single { bits: LOG_FLOOR }));
        b = b + 1;
        proof {
            assert(all.take(b as int) =~= all.take(b - 1).push(all[b - 1]));
        }
    }
    proof {
        assert(all.take(b as int) =~= all);
    }
    envelope
}

} // verus!
