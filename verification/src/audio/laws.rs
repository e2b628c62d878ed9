//! What holds of the audio side as a whole.

use crate::audio::decode;
use crate::audio::export;
use crate::audio::order;
use crate::audio::sync;
use crate::audio::takeoff;
use crate::audio::takeoff::Takeoff;
use crate::audio::waveform;
use crate::audio::{AudioTrack, SourceFormat};
use crate::ieee::double::Double;
use crate::ieee::grid;
use crate::ieee::grid::Format;
use crate::ieee::laws;
use crate::ieee::single::Single;
use vstd::arithmetic::div_mod::*;
use vstd::arithmetic::power2::*;
use vstd::prelude::*;

verus! {

/// The confidence of an alignment lies between 0 and 1: wherever it is a number,
/// and it is one where the correlation holds finite values.
pub proof fn law_confidence_in_range(
    correlation: Seq<Single>,
    audio_len: nat,
    gyro_len: nat,
    env_rate_hz: Single,
)
    requires
        audio_len <= u64::MAX,
        gyro_len <= u64::MAX,
    ensures
        ({
            let c = sync::alignment(correlation, audio_len, gyro_len, env_rate_hz).confidence;
            &&& !c.nan() ==> Single::zero().at_most(c) && c.at_most(Single::one())
            &&& (forall|i: int|
                0 <= i < correlation.len() ==> laws::is_finite(#[trigger] correlation[i]))
                ==> !c.nan()
        }),
{
    if sync::comparable(audio_len, gyro_len, env_rate_hz) && correlation.len() > 0 && (forall|i: int|
        0 <= i < correlation.len() ==> laws::is_finite(#[trigger] correlation[i])) {
        let f = Format::Single;
        let overlap = if audio_len < gyro_len {
            audio_len
        } else {
            gyro_len
        };
        let p = pow2(149);
        let n = overlap * p;
        lemma_summit_inside(correlation);
        lemma_pow2_pos(149);
        assert(n >= 1) by (nonlinear_arith)
            requires
                n == overlap * p,
                overlap >= 1,
                p >= 1,
        ;
        laws::law_nearest_exists(f, n, 1);
        laws::law_rounding_keeps_values(f, 1, 1);
        assert(grid::units(f, 1) == 1);
        laws::law_rounding_keeps_order(f, 1, 1, n, 1);
        let d = Single::from_u64(overlap as u64);
        assert(d.number().index >= 1 && !d.nan());
        let peak = correlation[sync::summit(correlation) as int];
        let a = grid::units(f, peak.number().index as nat);
        let u = grid::units(f, d.number().index as nat);
        grid::lemma_units_increase(f, 0, d.number().index as nat);
        laws::law_nearest_exists(f, a * p, u);
        assert(!peak.over(d).nan());
    }
}

/// The lag read off a correlation of envelopes of `gyro_len` points and some
/// others, in samples of the envelope.
pub open spec fn lag_read(correlation: Seq<Single>, gyro_len: nat) -> int {
    sync::summit(correlation) - (gyro_len - 1)
}

/// One correlation gives one lag, whatever the rate of the envelopes: the rate
/// only turns it into seconds. The lag lies between those at which the last
/// points of the envelopes meet.
pub proof fn law_rate_only_scales_the_lag(
    correlation: Seq<Single>,
    audio_len: nat,
    gyro_len: nat,
    r1: Single,
    r2: Single,
)
    requires
        sync::comparable(audio_len, gyro_len, r1),
        sync::comparable(audio_len, gyro_len, r2),
        correlation.len() == audio_len + gyro_len - 1,
    ensures
        ({
            let lag = lag_read(correlation, gyro_len);
            let x1 = sync::alignment(correlation, audio_len, gyro_len, r1);
            let x2 = sync::alignment(correlation, audio_len, gyro_len, r2);
            &&& x1.offset_seconds == Double::from_i64(lag as i64).over(r1.to_double())
            &&& x2.offset_seconds == Double::from_i64(lag as i64).over(r2.to_double())
            &&& x1.confidence == x2.confidence
            &&& -(gyro_len - 1) <= lag <= audio_len - 1
        }),
{
    lemma_summit_inside(correlation);
}

/// Envelopes too short to compare, or without a rate, are aligned by nothing.
pub proof fn law_short_envelopes_align_nothing(
    correlation: Seq<Single>,
    audio_len: nat,
    gyro_len: nat,
    env_rate_hz: Single,
)
    requires
        audio_len < 2 || gyro_len < 2 || env_rate_hz.at_most(Single::zero()),
    ensures
        sync::alignment(correlation, audio_len, gyro_len, env_rate_hz) == (sync::SyncResult {
            offset_seconds: Double::zero(),
            confidence: Single::zero(),
        }),
{
}

/// The lag that is read is that of the highest point of a correlation; of
/// several such points the last.
pub proof fn law_summit_is_highest(s: Seq<Single>, i: int)
    requires
        order::all_numbers(s),
        0 <= i < s.len(),
    ensures
        sync::summit(s) < s.len(),
        s[i].at_most(s[sync::summit(s) as int]),
        i > sync::summit(s) ==> s[i].less(s[sync::summit(s) as int]),
    decreases s.len(),
{
    if s.len() > 1 {
        let before = s.drop_last();
        assert forall|j: int| 0 <= j < before.len() implies !(#[trigger] before[j]).nan() by {
            assert(before[j] == s[j]);
        }
        law_summit_is_highest(before, if i < before.len() { i } else { 0 });
        assert(!s[s.len() - 1].nan() && !s[sync::summit(before) as int].nan());
        assert(s.last() == s[s.len() - 1]);
        assert(before[sync::summit(before) as int] == s[sync::summit(before) as int]);
        if i < before.len() {
            assert(before[i] == s[i]);
        }
    }
}

/// Where one lag stands out of a correlation, it gives the offset: index
/// `gyro_len - 1` is no shift, and each step up is one sample of the envelope
/// later in the audio.
pub proof fn law_standing_out_lag_decides(
    correlation: Seq<Single>,
    audio_len: nat,
    gyro_len: nat,
    env_rate_hz: Single,
    peak: int,
)
    requires
        sync::comparable(audio_len, gyro_len, env_rate_hz),
        0 <= peak < correlation.len(),
        forall|i: int|
            0 <= i < correlation.len() && i != peak ==> (#[trigger] correlation[i]).less(
                correlation[peak],
            ),
    ensures
        sync::alignment(correlation, audio_len, gyro_len, env_rate_hz).offset_seconds
            == Double::from_i64((peak - (gyro_len - 1)) as i64).over(env_rate_hz.to_double()),
{
    lemma_stands_out(correlation, peak);
}

proof fn lemma_stands_out(s: Seq<Single>, peak: int)
    requires
        0 <= peak < s.len(),
        forall|i: int| 0 <= i < s.len() && i != peak ==> (#[trigger] s[i]).less(s[peak]),
    ensures
        sync::summit(s) == peak,
    decreases s.len(),
{
    if s.len() > 1 {
        let before = s.drop_last();
        if peak < before.len() {
            assert forall|i: int| 0 <= i < before.len() && i != peak implies (#[trigger] before[i]).less(
                before[peak],
            ) by {
                assert(s[i].less(s[peak]));
            }
            lemma_stands_out(before, peak);
            assert(s[s.len() - 1].less(s[peak]));
        } else {
            let at = sync::summit(before) as int;
            lemma_summit_inside(before);
            assert(s[at].less(s[peak]));
        }
    }
}

proof fn lemma_summit_inside(s: Seq<Single>)
    requires
        s.len() > 0,
    ensures
        sync::summit(s) < s.len(),
    decreases s.len(),
{
    if s.len() > 1 {
        lemma_summit_inside(s.drop_last());
    }
}

/// Uncompressed material is never taken for a lossy source: its format always
/// comes from the codec, whatever sample format is reported.
pub proof fn law_pcm_is_never_lossy(t: decode::TrackParams)
    requires
        decode::PCM_S32 <= t.codec < decode::PCM_F64 + 4,
    ensures
        decode::chosen(t) matches Some(c) ==> c.source_format != SourceFormat::Other,
        decode::chosen(t) is Some <==> t.sample_rate is Some,
{
}

/// Float PCM, of either width, is kept as float.
pub proof fn law_float_pcm_is_float(t: decode::TrackParams)
    requires
        decode::PCM_F32 <= t.codec < decode::PCM_F64 + 4,
    ensures
        decode::chosen(t) matches Some(c) ==> c.source_format == SourceFormat::F32,
{
}

/// Of several bands the one that holds best decides: no band shows a higher
/// sustain than the one that is kept.
pub proof fn law_highest_sustain_wins(
    shown: Seq<Option<(usize, Single)>>,
    bands: Seq<(Single, Vec<Single>)>,
    i: int,
)
    requires
        0 <= i < shown.len(),
        shown[i] is Some,
        forall|j: int| 0 <= j < shown.len() && #[trigger] shown[j] is Some ==> !shown[j]->Some_0.1.nan(),
    ensures
        takeoff::best_among(shown, bands) matches Some(t) && shown[i]->Some_0.1.at_most(t.sustain),
    decreases shown.len(),
{
    let before = shown.drop_last();
    assert forall|j: int| 0 <= j < before.len() && #[trigger] before[j] is Some implies !before[j]->Some_0.1.nan() by {
        assert(shown[j] is Some);
    }
    lemma_sustain_is_number(before, bands);
    if i < before.len() {
        assert(before[i] == shown[i]);
        law_highest_sustain_wins(before, bands, i);
    } else {
        assert(shown[i] == shown.last());
    }
    assert(shown.last() is Some ==> !shown[shown.len() - 1]->Some_0.1.nan());
}

proof fn lemma_sustain_is_number(
    shown: Seq<Option<(usize, Single)>>,
    bands: Seq<(Single, Vec<Single>)>,
)
    requires
        forall|j: int| 0 <= j < shown.len() && #[trigger] shown[j] is Some ==> !shown[j]->Some_0.1.nan(),
    ensures
        takeoff::best_among(shown, bands) matches Some(t) ==> !t.sustain.nan(),
    decreases shown.len(),
{
    if shown.len() > 0 {
        let before = shown.drop_last();
        assert forall|j: int| 0 <= j < before.len() && #[trigger] before[j] is Some implies !before[j]->Some_0.1.nan() by {
            assert(shown[j] is Some);
        }
        lemma_sustain_is_number(before, bands);
        assert(shown[shown.len() - 1] == shown.last());
    }
}

/// What is reported as a take-off holds its level: its sustain is never below
/// the least one for a flight.
pub proof fn law_reported_flights_sustain(best: Option<Takeoff>)
    ensures
        takeoff::accepted(best) matches Some(t) ==> (Single { bits: takeoff::MIN_SUSTAIN }).at_most(
            t.sustain,
        ),
        takeoff::accepted(best) is Some ==> takeoff::accepted(best) == best,
{
}

/// The buffer of a stretch of video has one sample per channel for each frame
/// the stretch calls for, and each frame is that of the track at the shifted
/// time, or silence where the track has none.
pub proof fn law_segment_frames(
    track: AudioTrack,
    t_in_s: Double,
    t_out_s: Double,
    frame: int,
    channel: int,
)
    requires
        export::calls_for_audio(&track, t_in_s, t_out_s),
        0 <= frame < export::frames_wanted(t_in_s, t_out_s, track.sample_rate),
        0 <= channel < track.channels,
    ensures
        ({
            let out = export::segment(&track, t_in_s, t_out_s);
            let start = export::frame_at(t_in_s, track.offset_seconds, track.sample_rate);
            let at = frame * track.channels + channel;
            &&& at < out.len()
            &&& out[at] == export::sample_at(&track, start + frame, channel)
        }),
{
    let ch = track.channels as int;
    let wanted = export::frames_wanted(t_in_s, t_out_s, track.sample_rate) as int;
    let at = frame * ch + channel;
    assert(frame * ch + ch <= wanted * ch) by (nonlinear_arith)
        requires
            frame + 1 <= wanted,
            ch > 0,
    ;
    assert(frame * ch >= 0) by (nonlinear_arith)
        requires
            frame >= 0,
            ch > 0,
    ;
    lemma_fundamental_div_mod_converse(at, ch, frame, channel);
}

/// Every sample of every whole frame counts in the waveform: it lies within the
/// peak of its bucket.
pub proof fn law_waveform_covers_every_sample(
    track: AudioTrack,
    samples_per_bucket: usize,
    frame: nat,
    channel: nat,
)
    requires
        frame < track.frames(),
        channel < track.channels,
        !track.samples@[(frame * track.channels + channel) as int].nan(),
    ensures
        ({
            let peaks = track.peaks_in(samples_per_bucket);
            let b = frame / waveform::bucket_size(samples_per_bucket);
            let v = track.samples@[(frame * track.channels + channel) as int];
            &&& b < peaks.len()
            &&& peaks[b as int].0.at_most(v)
            &&& v.at_most(peaks[b as int].1)
        }),
{
    let size = waveform::bucket_size(samples_per_bucket);
    let ch = track.channels as nat;
    let total = track.frames();
    let b = frame / size;
    let first = b * size;
    let end = waveform::bucket_end(first, size, total);
    lemma_fundamental_div_mod(track.samples@.len() as int, ch as int);
    lemma_mod_bound(track.samples@.len() as int, ch as int);
    assert(total * ch <= track.samples@.len()) by (nonlinear_arith)
        requires
            track.samples@.len() == ch * total + track.samples@.len() as int % ch as int,
            track.samples@.len() as int % ch as int >= 0,
    ;
    lemma_fundamental_div_mod(frame as int, size as int);
    lemma_mod_bound(frame as int, size as int);
    assert(first <= frame < first + size) by (nonlinear_arith)
        requires
            frame == size * b + frame as int % size as int,
            0 <= frame as int % size as int,
            (frame as int % size as int) < size,
            first == b * size,
    ;
    waveform::lemma_divided_up(total, size);
    let count = waveform::divided_up(total, size);
    assert(b < count) by (nonlinear_arith)
        requires
            total <= count * size,
            b * size < total,
            size > 0,
    ;
    let part = waveform::bucket(&track, size, b);
    let i = (frame * ch + channel) - first * ch;
    assert(first * ch <= frame * ch && frame * ch + ch <= end * ch && end * ch <= total * ch)
        by (nonlinear_arith)
        requires
            first <= frame,
            frame + 1 <= end,
            end <= total,
    ;
    assert(track.samples@.len() > 0);
    assert(part[i] == track.samples@[(frame * ch + channel) as int]);
    waveform::law_peak_bounds(part, i);
}

/// Sorted samples ascend: a sample at a later place is not below one at an
/// earlier.
pub proof fn law_places_ascend(s: Seq<Single>, k: nat, l: nat)
    requires
        order::all_numbers(s),
        k <= l < s.len(),
    ensures
        order::kth(s, k).at_most(order::kth(s, l)),
{
    order::lemma_place_exists(s, k);
    order::lemma_place_exists(s, l);
    let i = choose|i: int| #[trigger] order::sorts_to(s, i, k);
    let j = choose|j: int| #[trigger] order::sorts_to(s, j, l);
    assert(!s[i].nan() && !s[j].nan());
    if s[j].rank() < s[i].rank() {
        order::lemma_places_follow_order(s, j, i);
    }
}

} // verus!
