//! The timeline lane that draws the waveform of the external audio.
//!
//! Time runs along the video: the waveform is placed against the duration of the
//! video, not of the audio, and shifted by the offset of the track.

use crate::audio::waveform;
use crate::audio::waveform::Peak;
use crate::audio::AudioTrack;
use crate::ieee::double::Double;
use crate::ieee::single::Single;
use crate::text;
use vstd::arithmetic::div_mod::*;
use vstd::prelude::*;

verus! {

/// Bits of 1000.0, milliseconds in a second.
pub const MILLIS: u64 = 0x408f_4000_0000_0000;

/// Bits of 1.0.
pub const UNIT: u64 = 0x3ff0_0000_0000_0000;

/// What of the timeline is on display, and where.
#[derive(Clone, Copy, Debug, PartialEq)]
pub struct Lane {
    /// Size of the drawing, in pixels.
    pub width: Double,
    pub height: Double,
    /// Ends of the visible area, as fractions of the video.
    pub visible_left: Double,
    pub visible_right: Double,
    /// Duration of the video in milliseconds.
    pub duration_ms: Double,
    /// Shift of the audio in seconds: `t_audio = t_video + offset`.
    pub offset_seconds: Double,
}

impl Lane {
    /// Instant of the video at a fraction of it, in seconds.
    pub open spec fn instant(self, fraction: Double) -> Double {
        fraction.times(self.duration_ms.over(Double { bits: MILLIS }))
    }

    pub open spec fn seconds_per_pixel(self) -> Double {
        self.instant(self.visible_right).minus(self.instant(self.visible_left)).over(self.width)
    }

    /// There is room to draw in and time to draw.
    pub open spec fn shows_anything(self) -> bool {
        &&& !self.width.at_most(Double::zero())
        &&& !self.height.at_most(Double::zero())
        &&& !self.duration_ms.at_most(Double::zero())
        &&& !self.instant(self.visible_right).at_most(self.instant(self.visible_left))
    }

    /// Instant of the audio at the left edge of a column, in seconds.
    pub open spec fn column_start(self, px: nat) -> Double {
        self.instant(self.visible_left).plus(
            Double::from_u64(px as u64).times(self.seconds_per_pixel()),
        ).plus(self.offset_seconds)
    }

    /// Ends of a column in audio frames, fractions included.
    pub open spec fn column_frames(self, px: nat, sample_rate: u32) -> (Double, Double) {
        let rate = Double::from_u64(sample_rate as u64);
        let start = self.column_start(px);
        (start.times(rate), start.plus(self.seconds_per_pixel()).times(rate))
    }
}

/// First frame of a column that starts at `first`.
pub open spec fn frame_from(first: Double, total: nat) -> nat {
    if first.trunc_u64() < total {
        first.trunc_u64() as nat
    } else {
        total
    }
}

/// Frame after the last of a column that ends at `last`; a column covers at
/// least one frame.
pub open spec fn frame_to(last: Double, from: nat, total: nat) -> nat {
    let cut = if last.ceil_u64() < total {
        last.ceil_u64() as nat
    } else {
        total
    };
    if cut > from {
        cut
    } else {
        from + 1
    }
}

/// Samples of the frames `from..to`, as far as there are any.
pub open spec fn frames_of(track: &AudioTrack, from: nat, to: nat) -> Seq<Single> {
    let ch = track.channels as nat;
    let end = if to * ch < track.samples@.len() {
        to * ch
    } else {
        track.samples@.len()
    };
    track.samples@.subrange((from * ch) as int, end as int)
}

/// Minimum and maximum of a column of pixels; flat outside the track, which is
/// how the user sees where the audio starts and ends.
pub open spec fn column(lane: Lane, track: &AudioTrack, px: nat) -> Peak {
    let total = track.frames();
    let (first, last) = lane.column_frames(px, track.sample_rate);
    if last.at_most(Double::zero()) || Double::from_u64(total as u64).at_most(first) {
        (Single::zero(), Single::zero())
    } else {
        let from = frame_from(first, total);
        waveform::peak_of(frames_of(track, from, frame_to(last, from, total)))
    }
}

/// Columns of a drawing.
pub open spec fn columns(lane: Lane) -> nat {
    if lane.width.trunc_u64() <= usize::MAX {
        lane.width.trunc_u64() as nat
    } else {
        usize::MAX as nat
    }
}

/// The visible stretch of a track, one pair per column of pixels.
pub open spec fn drawing(lane: Lane, track: &AudioTrack) -> Seq<Peak> {
    if lane.shows_anything() && track.samples@.len() > 0 && track.channels > 0 && track.sample_rate
        > 0 {
        Seq::new(columns(lane), |px: int| column(lane, track, px as nat))
    } else {
        Seq::empty()
    }
}

/// [`peak_of`](waveform::peak_of) the frames between two instants.
fn column_peak(track: &AudioTrack, first: Double, last: Double) -> (r: Peak)
    requires
        track.channels > 0,
    ensures
        r == (if last.at_most(Double::zero()) || Double::from_u64(track.frames() as u64).at_most(first) {
            (Single::zero(), Single::zero())
        } else {
            let from = frame_from(first, track.frames());
            waveform::peak_of(frames_of(track, from, frame_to(last, from, track.frames())))
        }),
{
    let total = track.frame_count();
    if last.at_most(Double::zero()) || Double::from_u64(total as u64).at_most(first) {
        return (Single::zero(), Single::zero());
    }
    let channels: usize = track.channels as usize;
    let n: usize = track.samples.len();
    let begin = first.trunc_u64();
    let from: usize = if begin < total as u64 {
        begin as usize
    } else {
        total
    };
    let finish = last.ceil_u64();
    let cut: usize = if finish < total as u64 {
        finish as usize
    } else {
        total
    };
    proof {
        lemma_fundamental_div_mod(n as int, channels as int);
        lemma_mod_bound(n as int, channels as int);
        assert(total * channels <= n < total * channels + channels) by (nonlinear_arith)
            requires
                n == channels * total + n as int % channels as int,
                0 <= (n as int % channels as int),
                (n as int % channels as int) < channels,
        ;
        assert(from * channels <= total * channels) by (nonlinear_arith)
            requires
                from <= total,
        ;
        assert((total + 1) * channels == total * channels + channels) by (nonlinear_arith);
    }
    let end: usize = if cut > from {
        proof {
            assert(cut * channels <= total * channels) by (nonlinear_arith)
                requires
                    cut <= total,
            ;
            assert(from * channels <= cut * channels) by (nonlinear_arith)
                requires
                    from <= cut,
            ;
        }
        cut * channels
    } else if from < total {
        proof {
            assert((from + 1) * channels <= total * channels) by (nonlinear_arith)
                requires
                    from + 1 <= total,
            ;
            assert(from * channels <= (from + 1) * channels) by (nonlinear_arith);
        }
        (from + 1) * channels
    } else {
        n
    };
    waveform::find_peak(&track.samples, from * channels, end)
}

/// Reduces the visible stretch of a track to one pair per column of pixels.
///
/// Only the visible stretch is looked at, so a long clip costs no more to draw
/// when zoomed in.
pub fn visible_peaks(lane: Lane, track: &AudioTrack) -> (r: Vec<Peak>)
    ensures
        r@ == drawing(lane, track),
{
    let mut peaks: Vec<Peak> = Vec::new();
    let zero = Double::zero();
    if lane.width.at_most(zero) || lane.height.at_most(zero) || lane.duration_ms.at_most(zero)
        || track.is_empty() || track.channels == 0 || track.sample_rate == 0 {
        return peaks;
    }
    let duration_s = lane.duration_ms.over(Double { bits: MILLIS });
    let from_s = lane.visible_left.times(duration_s);
    let to_s = lane.visible_right.times(duration_s);
    if to_s.at_most(from_s) {
        return peaks;
    }
    let step = to_s.minus(from_s).over(lane.width);
    let rate = Double::from_u64(track.sample_rate as u64);
    let whole = lane.width.trunc_u64();
    let count: usize = if whole <= usize::MAX as u64 {
        whole as usize
    } else {
        usize::MAX
    };
    let ghost all = drawing(lane, track);
    proof {
        assert(all.take(0) =~= Seq::empty());
    }
    let mut px: usize = 0;
    while px < count
        invariant
            px <= count,
            count == columns(lane),
            track.channels > 0,
            all == drawing(lane, track),
            all.len() == count,
            lane.shows_anything(),
            track.samples@.len() > 0,
            track.sample_rate > 0,
            from_s == lane.instant(lane.visible_left),
            step == lane.seconds_per_pixel(),
            rate == Double::from_u64(track.sample_rate as u64),
            peaks@ == all.take(px as int),
        decreases count - px,
    {
        let t_video = from_s.plus(Double::from_u64(px as u64).times(step));
        let start = t_video.plus(lane.offset_seconds);
        let end = start.plus(step);
        peaks.push(column_peak(track, start.times(rate), end.times(rate)));
        px = px + 1;
        proof {
            assert(all.take(px as int) =~= all.take(px - 1).push(all[px - 1]));
        }
    }
    proof {
        assert(all.take(px as int) =~= all);
    }
    peaks
}

/// Vertical scale of the drawing: 1 where none above 0 is given.
pub open spec fn scale_in_use(vscale: Double) -> Double {
    if Double::zero().less(vscale) {
        vscale
    } else {
        Double { bits: UNIT }
    }
}

/// Height at which a sample value is drawn, from the top.
pub open spec fn drawn_at(value: Single, vscale: Double, half_height: Double) -> Double {
    let one = Double { bits: UNIT };
    half_height.times(
        one.minus(value.to_double().times(scale_in_use(vscale)).clamped(one.opposite(), one)),
    )
}

/// Ends of the vertical line of a column, that of the maximum first.
pub fn line_of(peak: Peak, vscale: Double, half_height: Double) -> (r: (Double, Double))
    ensures
        r.0 == drawn_at(peak.1, vscale, half_height),
        r.1 == drawn_at(peak.0, vscale, half_height),
{
    let one = Double { bits: UNIT };
    let scale = if Double::zero().less(vscale) {
        vscale
    } else {
        one
    };
    let low = one.opposite();
    (
        half_height.times(one.minus(peak.1.to_double().times(scale).clamped(low, one))),
        half_height.times(one.minus(peak.0.to_double().times(scale).clamped(low, one))),
    )
}

/// Color of the waveform for a theme.
pub fn stroke_color(theme: &str) -> (c: &'static str)
    ensures
        c@ == if theme@ == "light"@ {
            "#3a7d7d"@
        } else {
            "#63c5c5"@
        },
{
    if text::same_text(theme, "light") {
        "#3a7d7d"
    } else {
        "#63c5c5"
    }
}

} // verus!
