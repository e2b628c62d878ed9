//! The waveform drawn on the timeline.
//!
//! The interface does not get sample after sample: the signal is reduced to one
//! pair (minimum, maximum) per bucket, which keeps the transients visible.

use crate::audio::AudioTrack;
use crate::ieee::single::Single;
use vstd::arithmetic::div_mod::*;
use vstd::prelude::*;

verus! {

/// Minimum and maximum of the samples in a bucket.
pub type Peak = (Single, Single);

/// Bits of the largest finite value.
pub const LARGEST: u32 = 0x7f7f_ffff;

/// Bits of the lowest finite value.
pub const LOWEST: u32 = 0xff7f_ffff;

/// The least sample, the largest finite value where none is less.
pub open spec fn least(s: Seq<Single>) -> Single
    decreases s.len(),
{
    if s.len() == 0 {
        Single { bits: LARGEST }
    } else {
        let before = least(s.drop_last());
        if s.last().less(before) {
            s.last()
        } else {
            before
        }
    }
}

/// The greatest sample, the lowest finite value where none is greater.
pub open spec fn greatest(s: Seq<Single>) -> Single
    decreases s.len(),
{
    if s.len() == 0 {
        Single { bits: LOWEST }
    } else {
        let before = greatest(s.drop_last());
        if before.less(s.last()) {
            s.last()
        } else {
            before
        }
    }
}

/// Minimum and maximum of some samples; flat where there is no number.
pub open spec fn peak_of(s: Seq<Single>) -> Peak {
    if greatest(s).less(least(s)) {
        (Single::zero(), Single::zero())
    } else {
        (least(s), greatest(s))
    }
}

/// [`peak_of`] the samples `from..to`.
pub(crate) fn find_peak(samples: &Vec<Single>, from: usize, to: usize) -> (r: Peak)
    requires
        from <= to <= samples.len(),
    ensures
        r == peak_of(samples@.subrange(from as int, to as int)),
{
    let mut min = Single { bits: LARGEST };
    let mut max = Single { bits: LOWEST };
    let mut i: usize = from;
    while i < to
        invariant
            from <= i <= to <= samples.len(),
            min == least(samples@.subrange(from as int, i as int)),
            max == greatest(samples@.subrange(from as int, i as int)),
        decreases to - i,
    {
        let value = samples[i];
        if value.less(min) {
            min = value;
        }
        if max.less(value) {
            max = value;
        }
        i = i + 1;
        proof {
            let next = samples@.subrange(from as int, i as int);
            assert(next.drop_last() =~= samples@.subrange(from as int, i - 1));
        }
    }
    if max.less(min) {
        (Single::zero(), Single::zero())
    } else {
        (min, max)
    }
}

/// A peak bounds every sample: no number among them lies outside it.
pub proof fn law_peak_bounds(s: Seq<Single>, i: int)
    requires
        0 <= i < s.len(),
        !s[i].nan(),
    ensures
        least(s).at_most(s[i]),
        s[i].at_most(greatest(s)),
        peak_of(s) == (least(s), greatest(s)),
{
    lemma_bounds(s, i);
}

proof fn lemma_bounds(s: Seq<Single>, i: int)
    requires
        0 <= i < s.len(),
        !s[i].nan(),
    ensures
        least(s).at_most(s[i]),
        s[i].at_most(greatest(s)),
    decreases s.len(),
{
    lemma_ends_are_numbers(s.drop_last());
    if i < s.len() - 1 {
        assert(s.drop_last()[i] == s[i]);
        lemma_bounds(s.drop_last(), i);
    }
}

proof fn lemma_ends_are_numbers(s: Seq<Single>)
    ensures
        !least(s).nan(),
        !greatest(s).nan(),
    decreases s.len(),
{
    if s.len() > 0 {
        lemma_ends_are_numbers(s.drop_last());
    }
}

/// `a / b` rounded up.
pub open spec fn divided_up(a: nat, b: nat) -> nat {
    if b == 0 {
        0
    } else if a % b == 0 {
        a / b
    } else {
        a / b + 1
    }
}

/// [`divided_up`], computed.
pub(crate) fn divide_up(a: usize, b: usize) -> (r: usize)
    requires
        b > 0,
    ensures
        r == divided_up(a as nat, b as nat),
{
    proof {
        lemma_fundamental_div_mod(a as int, b as int);
        lemma_mod_bound(a as int, b as int);
        let q = a as int / b as int;
        assert(q <= a) by (nonlinear_arith)
            requires
                a == b * q + a as int % b as int,
                b >= 1,
                a as int % b as int >= 0,
                q >= 0,
        ;
        if a % b != 0 {
            assert(q < a) by (nonlinear_arith)
                requires
                    a == b * q + a as int % b as int,
                    b >= 1,
                    a as int % b as int > 0,
                    q >= 0,
            ;
        }
    }
    if a % b == 0 {
        a / b
    } else {
        a / b + 1
    }
}

/// The quotient rounded up is the least count of groups of `b` that hold `a`.
pub proof fn lemma_divided_up(a: nat, b: nat)
    requires
        b > 0,
    ensures
        a <= divided_up(a, b) * b < a + b,
{
    lemma_fundamental_div_mod(a as int, b as int);
    lemma_mod_bound(a as int, b as int);
    let q = a / b;
    assert((q + 1) * b == b * q + b && q * b == b * q) by (nonlinear_arith);
}

/// Frames that end a bucket of `size` frames starting at `first`, of `total`.
pub open spec fn bucket_end(first: nat, size: nat, total: nat) -> nat {
    if first + size < total {
        first + size
    } else {
        total
    }
}

/// Samples of the `b`-th bucket of `size` frames.
pub open spec fn bucket(track: &AudioTrack, size: nat, b: nat) -> Seq<Single> {
    let ch = track.channels as nat;
    let first = b * size;
    track.samples@.subrange(
        (first * ch) as int,
        (bucket_end(first, size, track.frames()) * ch) as int,
    )
}

/// Frames per bucket; 0 is taken as 1.
pub open spec fn bucket_size(samples_per_bucket: usize) -> nat {
    if samples_per_bucket == 0 {
        1
    } else {
        samples_per_bucket as nat
    }
}

impl AudioTrack {
    /// The track as one pair per bucket of frames.
    pub open spec fn peaks_in(&self, samples_per_bucket: usize) -> Seq<Peak> {
        let size = bucket_size(samples_per_bucket);
        if self.samples@.len() == 0 || self.channels == 0 {
            Seq::empty()
        } else {
            Seq::new(divided_up(self.frames(), size), |b: int| peak_of(bucket(self, size, b as nat)))
        }
    }

    /// Reduces the track to pairs (minimum, maximum), one per bucket.
    ///
    /// `samples_per_bucket` is how many frames of audio each bucket covers; 0 is
    /// taken as 1. All channels count, so that a transient present in only one of
    /// them stays visible.
    pub fn peaks(&self, samples_per_bucket: usize) -> (r: Vec<Peak>)
        ensures
            r@ == self.peaks_in(samples_per_bucket),
    {
        let mut peaks: Vec<Peak> = Vec::new();
        let channels: usize = self.channels as usize;
        if self.samples.len() == 0 || channels == 0 {
            return peaks;
        }
        let size: usize = if samples_per_bucket == 0 {
            1
        } else {
            samples_per_bucket
        };
        let total = self.frame_count();
        let count = divide_up(total, size);
        let n: usize = self.samples.len();
        let ghost all = self.peaks_in(samples_per_bucket);
        proof {
            lemma_divided_up(total as nat, size as nat);
            lemma_fundamental_div_mod(n as int, channels as int);
            assert(total * channels <= n) by (nonlinear_arith)
                requires
                    n == channels * total + n as int % channels as int,
                    n as int % channels as int >= 0,
            ;
            assert(all.take(0) =~= Seq::empty());
        }
        let mut b: usize = 0;
        while b < count
            invariant
                b <= count,
                size > 0,
                size == bucket_size(samples_per_bucket),
                channels == self.channels,
                channels > 0,
                n == self.samples@.len(),
                n > 0,
                total == self.frames(),
                total * channels <= n,
                count == divided_up(total as nat, size as nat),
                count * size < total + size,
                all == self.peaks_in(samples_per_bucket),
                peaks@ == all.take(b as int),
            decreases count - b,
        {
            proof {
                assert(b * size <= total) by (nonlinear_arith)
                    requires
                        b + 1 <= count,
                        count * size < total + size,
                        size > 0,
                ;
            }
            let first: usize = b * size;
            let last: usize = if total - first <= size {
                total
            } else {
                first + size
            };
            proof {
                assert(first * channels <= last * channels <= total * channels) by (nonlinear_arith)
                    requires
                        first <= last <= total,
                ;
            }
            let peak = find_peak(&self.samples, first * channels, last * channels);
            peaks.push(peak);
            b = b + 1;
            proof {
                assert(all.take(b as int) =~= all.take(b - 1).push(all[b - 1]));
            }
        }
        proof {
            assert(all.take(b as int) =~= all);
        }
        peaks
    }

    /// Peaks for a target width in pixels: the whole track in at most `width_px`
    /// buckets.
    pub fn peaks_for_width(&self, width_px: usize) -> (r: Vec<Peak>)
        ensures
            width_px == 0 ==> r@.len() == 0,
            width_px > 0 ==> r@ == self.peaks_in(
                divided_up(self.frames(), width_px as nat) as usize,
            ),
            r@.len() <= width_px,
    {
        let channels: usize = self.channels as usize;
        if width_px == 0 || channels == 0 || self.samples.len() == 0 {
            return Vec::new();
        }
        let total = self.frame_count();
        let size = divide_up(total, width_px);
        let r = self.peaks(size);
        proof {
            let k = bucket_size(size);
            let count = divided_up(total as nat, k);
            let w = width_px as nat;
            lemma_divided_up(total as nat, w);
            lemma_divided_up(total as nat, k);
            assert(size * w <= k * w) by (nonlinear_arith)
                requires
                    size <= k,
            ;
            assert(count <= w) by (nonlinear_arith)
                requires
                    count * k < total + k,
                    total <= size * w,
                    size * w <= k * w,
                    k > 0,
            ;
        }
        r
    }
}

} // verus!
