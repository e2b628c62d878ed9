//! Assembly of the audio buffer embedded in the exported video.
//!
//! `t_audio = t_video + offset`: a stretch of video `[t_in, t_out]` corresponds
//! to the stretch of audio `[t_in + offset, t_out + offset]`. The buffer always
//! covers the whole stretch of video; where the track does not reach, it holds
//! silence.

use crate::audio::{AudioTrack, SourceFormat};
use crate::ieee::double::Double;
use crate::ieee::single::Single;
use crate::text;
use vstd::arithmetic::div_mod::*;
use vstd::prelude::*;

verus! {

/// Name of the output codec that keeps a source format.
pub open spec fn codec_for(format: SourceFormat) -> Seq<char> {
    match format {
        SourceFormat::F32 | SourceFormat::S32 => "PCM (f32le)"@,
        SourceFormat::S24 => "PCM (s24le)"@,
        SourceFormat::S16 | SourceFormat::U8 => "PCM (s16le)"@,
        SourceFormat::Other => "AAC"@,
    }
}

/// Output codec recommended to keep a source format.
///
/// Float needs float: an integer codec would lose the range above full scale
/// that 32-bit float material carries. 32-bit integers go the same way: no
/// integer codec on offer is as deep, and the decoded samples are 32-bit floats
/// already, so nothing more is lost.
pub fn recommended_codec(format: SourceFormat) -> (r: &'static str)
    ensures
        r@ == codec_for(format),
{
    match format {
        SourceFormat::F32 | SourceFormat::S32 => "PCM (f32le)",
        SourceFormat::S24 => "PCM (s24le)",
        SourceFormat::S16 | SourceFormat::U8 => "PCM (s16le)",
        SourceFormat::Other => "AAC",
    }
}

/// An extension without leading dots, in lower case.
pub open spec fn plain_extension(extension: Seq<char>) -> Seq<char> {
    text::lowered_text(text::without_leading(extension, '.'))
}

/// Whether a container, named by its plain extension, takes a codec.
pub open spec fn container_takes(ext: Seq<char>, codec: Seq<char>) -> bool {
    if codec == "PCM (f32le)"@ {
        ext == "mov"@ || ext == "mkv"@
    } else if codec == "PCM (s16le)"@ || codec == "PCM (s16be)"@ || codec == "PCM (s24le)"@
        || codec == "PCM (s24be)"@ {
        ext == "mov"@ || ext == "mkv"@ || ext == "wav"@
    } else if codec == "AAC"@ {
        ext == "mp4"@ || ext == "mov"@ || ext == "mkv"@ || ext == "m4a"@
    } else {
        false
    }
}

/// [`plain_extension`], computed.
fn to_plain_extension(extension: &str) -> (s: String)
    ensures
        s@ == plain_extension(extension@),
{
    let v = text::chars_of(extension);
    let n = v.len();
    let start = text::skip_leading(&v, 0, n, '.');
    let ghost rest = text::without_leading(extension@, '.');
    proof {
        assert(v@.subrange(0, n as int) =~= v@);
    }
    let mut s = String::new();
    let mut i: usize = start;
    while i < v.len()
        invariant
            start <= i <= v.len(),
            rest == v@.subrange(start as int, v@.len() as int),
            s@ == text::lowered_text(rest.take(i - start)),
        decreases v.len() - i,
    {
        s.push(text::lower(v[i]));
        i = i + 1;
        proof {
            assert(rest.take(i - start) =~= rest.take(i - 1 - start).push(v@[i - 1]));
            assert(text::lowered_text(rest.take(i - start)) =~= text::lowered_text(
                rest.take(i - 1 - start),
            ).push(text::lowered(v@[i - 1])));
        }
    }
    proof {
        assert(rest.take(i - start) =~= rest);
        assert(text::lowered_text(rest.take(0)) =~= Seq::<char>::empty());
    }
    s
}

/// Whether a container takes the given audio codec.
///
/// The extension is compared without leading dots and without case. PCM float
/// exists in MOV and MKV; MP4 defines no mapping for it.
pub fn container_supports_codec(extension: &str, codec: &str) -> (r: bool)
    ensures
        r == container_takes(plain_extension(extension@), codec@),
{
    let ext = to_plain_extension(extension);
    let ext = ext.as_str();
    if text::same_text(codec, "PCM (f32le)") {
        text::same_text(ext, "mov") || text::same_text(ext, "mkv")
    } else if text::same_text(codec, "PCM (s16le)") || text::same_text(codec, "PCM (s16be)")
        || text::same_text(codec, "PCM (s24le)") || text::same_text(codec, "PCM (s24be)") {
        text::same_text(ext, "mov") || text::same_text(ext, "mkv") || text::same_text(ext, "wav")
    } else if text::same_text(codec, "AAC") {
        text::same_text(ext, "mp4") || text::same_text(ext, "mov") || text::same_text(ext, "mkv")
            || text::same_text(ext, "m4a")
    } else {
        false
    }
}

/// Outcome of the check between source, codec and container.
#[derive(Debug, Clone, PartialEq, Eq)]
pub enum FormatCompatibility {
    /// The source format is kept without loss.
    Preserved {
        /// Codec used in the output.
        codec: &'static str,
    },
    /// The chosen container cannot hold the source format. It must not be
    /// converted silently: the user decides.
    ContainerMismatch {
        /// Codec that would keep the material.
        wanted_codec: &'static str,
        /// Extension chosen for the video.
        extension: String,
        /// Extension suggested instead.
        suggested_extension: &'static str,
    },
    /// The user turned preservation off.
    DowngradeAccepted {
        /// Default codec of the container.
        codec: &'static str,
    },
}

impl FormatCompatibility {
    pub open spec fn proceeds(&self) -> bool {
        !(self is ContainerMismatch)
    }

    /// Whether the export can go on without the user stepping in.
    #[verifier::when_used_as_spec(proceeds)]
    pub fn can_proceed(&self) -> (b: bool)
        ensures
            b == self.proceeds(),
    {
        match self {
            FormatCompatibility::ContainerMismatch { .. } => false,
            _ => true,
        }
    }

    /// The codec the output gets, where the export can go on.
    pub open spec fn output_codec(&self) -> Option<Seq<char>> {
        match self {
            FormatCompatibility::Preserved { codec } => Some(codec@),
            FormatCompatibility::ContainerMismatch { .. } => None,
            FormatCompatibility::DowngradeAccepted { codec } => Some(codec@),
        }
    }

    /// This is the outcome for a source, an extension and the user's choice.
    pub open spec fn decides(
        &self,
        format: SourceFormat,
        extension: Seq<char>,
        preserve: bool,
    ) -> bool {
        let fits = container_takes(plain_extension(extension), codec_for(format));
        match self {
            FormatCompatibility::DowngradeAccepted { codec } => !preserve && codec@ == "AAC"@,
            FormatCompatibility::Preserved { codec } => preserve && fits && codec@ == codec_for(
                format,
            ),
            FormatCompatibility::ContainerMismatch {
                wanted_codec,
                extension: chosen,
                suggested_extension,
            } => {
                &&& preserve && !fits
                &&& wanted_codec@ == codec_for(format)
                &&& chosen@ == plain_extension(extension)
                &&& suggested_extension@ == "mov"@
            },
        }
    }
}

/// Chooses the output codec, or finds that the container cannot hold the material.
///
/// `extension` is that of the video file, since the audio is embedded in it.
/// The suggested alternative is always `mov`.
pub fn check_format_compatibility(
    source_format: SourceFormat,
    extension: &str,
    preserve_original_format: bool,
) -> (r: FormatCompatibility)
    ensures
        r.decides(source_format, extension@, preserve_original_format),
{
    if !preserve_original_format {
        return FormatCompatibility::DowngradeAccepted { codec: "AAC" };
    }
    let wanted = recommended_codec(source_format);
    if container_supports_codec(extension, wanted) {
        FormatCompatibility::Preserved { codec: wanted }
    } else {
        FormatCompatibility::ContainerMismatch {
            wanted_codec: wanted,
            extension: to_plain_extension(extension),
            suggested_extension: "mov",
        }
    }
}

/// With the source format to be kept, the export goes on exactly where the
/// container takes the codec that keeps it, and then with that codec: nothing
/// is converted silently.
pub proof fn law_no_silent_conversion(
    outcome: FormatCompatibility,
    format: SourceFormat,
    extension: Seq<char>,
)
    requires
        outcome.decides(format, extension, true),
    ensures
        outcome.proceeds() <==> container_takes(plain_extension(extension), codec_for(format)),
        outcome.proceeds() ==> outcome.output_codec() == Some(codec_for(format)),
{
}

/// Float material to be kept as it is never goes into an MP4 file.
pub proof fn law_float_never_in_mp4(outcome: FormatCompatibility, extension: Seq<char>)
    requires
        outcome.decides(SourceFormat::F32, extension, true),
        plain_extension(extension) == "mp4"@,
    ensures
        outcome is ContainerMismatch,
{
    reveal_strlit("mp4");
    reveal_strlit("mov");
    reveal_strlit("mkv");
    assert("mp4"@[1] != "mov"@[1]);
    assert("mp4"@[1] != "mkv"@[1]);
}

/// The extension suggested in place of one that does not fit does fit.
pub proof fn law_suggestion_fits(
    refused: FormatCompatibility,
    format: SourceFormat,
    extension: Seq<char>,
    retried: FormatCompatibility,
)
    requires
        refused.decides(format, extension, true),
        refused is ContainerMismatch,
        retried.decides(format, refused->suggested_extension@, true),
    ensures
        retried.proceeds(),
{
    reveal_strlit("mov");
    reveal_strlit("PCM (f32le)");
    reveal_strlit("PCM (s24le)");
    reveal_strlit("PCM (s16le)");
    reveal_strlit("AAC");
    assert("PCM (f32le)"@[5] == 'f' && "PCM (s24le)"@[5] == 's' && "PCM (s16le)"@[5] == 's');
    assert("PCM (s24le)"@[6] == '2' && "PCM (s16le)"@[6] == '1');
    assert("AAC"@.len() == 3 && "PCM (f32le)"@.len() == 11);
    let mov = "mov"@;
    assert(text::without_leading(mov, '.') == mov);
    assert(plain_extension(mov) =~= mov);
}

/// Bits per sample that a PCM codec keeps.
pub open spec fn codec_depth(codec: Seq<char>) -> nat {
    if codec == "PCM (f32le)"@ {
        32
    } else if codec == "PCM (s24le)"@ || codec == "PCM (s24be)"@ {
        24
    } else if codec == "PCM (s16le)"@ || codec == "PCM (s16be)"@ {
        16
    } else {
        0
    }
}

/// The recommended codec has at least the bit depth of the source.
pub proof fn law_depth_is_kept(format: SourceFormat)
    ensures
        codec_depth(codec_for(format)) >= format.bits(),
{
    reveal_strlit("PCM (f32le)");
    reveal_strlit("PCM (s24le)");
    reveal_strlit("PCM (s16le)");
    reveal_strlit("PCM (s24be)");
    assert("PCM (s24le)"@[5] != "PCM (f32le)"@[5]);
    assert("PCM (s16le)"@[5] != "PCM (f32le)"@[5]);
    assert("PCM (s16le)"@[6] != "PCM (s24le)"@[6]);
    assert("PCM (s16le)"@[6] != "PCM (s24be)"@[6]);
}

/// Audio frame at an instant of the video; negative before the audio starts.
///
/// The rounding happens once, on the time with the offset already added.
pub open spec fn frame_at(t_video_s: Double, offset_s: Double, sample_rate: u32) -> i64 {
    t_video_s.plus(offset_s).times(Double::from_u64(sample_rate as u64)).round_i64()
}

/// Converts an instant of the video to the audio frame it corresponds to.
///
/// Converting in two steps (time to video frame to sample) would add up errors
/// of half a frame. The result may be negative: the stretch of video then starts
/// before the audio, and the difference becomes silence.
pub fn video_time_to_audio_frame(t_video_s: Double, offset_s: Double, sample_rate: u32) -> (r: i64)
    ensures
        r == frame_at(t_video_s, offset_s, sample_rate),
{
    t_video_s.plus(offset_s).times(Double::from_u64(sample_rate as u64)).round_i64()
}

/// Audio frames that a stretch of video calls for.
pub open spec fn frames_wanted(t_in_s: Double, t_out_s: Double, sample_rate: u32) -> nat {
    let n = t_out_s.minus(t_in_s).times(Double::from_u64(sample_rate as u64)).round_i64();
    if n > 0 {
        n as nat
    } else {
        0
    }
}

/// Whether a stretch of video calls for any audio of a track.
pub open spec fn calls_for_audio(track: &AudioTrack, t_in_s: Double, t_out_s: Double) -> bool {
    track.channels != 0 && track.sample_rate != 0 && !t_out_s.at_most(t_in_s)
}

/// Length of the buffer for a stretch of video, in samples.
pub open spec fn segment_length(track: &AudioTrack, t_in_s: Double, t_out_s: Double) -> nat {
    if calls_for_audio(track, t_in_s, t_out_s) {
        frames_wanted(t_in_s, t_out_s, track.sample_rate) * track.channels as nat
    } else {
        0
    }
}

/// Sample of a track at a frame and a channel; silence outside the track.
pub open spec fn sample_at(track: &AudioTrack, frame: int, channel: int) -> Single {
    if 0 <= frame < track.frames() {
        track.samples@[frame * track.channels + channel]
    } else {
        Single::zero()
    }
}

/// The buffer for a stretch of video: exactly as long as the stretch, each
/// frame taken from the track at the shifted time.
pub open spec fn segment(track: &AudioTrack, t_in_s: Double, t_out_s: Double) -> Seq<Single> {
    let start = frame_at(t_in_s, track.offset_seconds, track.sample_rate);
    let channels = track.channels as int;
    Seq::new(
        segment_length(track, t_in_s, t_out_s),
        |i: int| sample_at(track, start + i / channels, i % channels),
    )
}

/// Appends one frame: of the track where `frame` is in it, else of silence.
fn push_frame(out: &mut Vec<Single>, track: &AudioTrack, frame: i128, available: usize)
    requires
        available == track.frames(),
        track.channels > 0,
    ensures
        final(out)@.len() == old(out)@.len() + track.channels,
        forall|i: int| 0 <= i < old(out)@.len() ==> final(out)@[i] == old(out)@[i],
        forall|c: int|
            0 <= c < track.channels ==> #[trigger] final(out)@[old(out)@.len() + c] == sample_at(
                track,
                frame as int,
                c,
            ),
{
    let channels: usize = track.channels as usize;
    let n: usize = track.samples.len();
    let ghost before = out@;
    let inside = 0 <= frame && frame < available as i128;
    let first: usize = if inside {
        proof {
            lemma_fundamental_div_mod(track.samples@.len() as int, channels as int);
            assert(frame * channels + channels <= available * channels) by (nonlinear_arith)
                requires
                    frame + 1 <= available,
                    channels > 0,
            ;
            assert(frame * channels >= 0) by (nonlinear_arith)
                requires
                    frame >= 0,
                    channels > 0,
            ;
            assert(channels * available == available * channels) by (nonlinear_arith);
            assert(available * channels <= n);
            assert((frame as usize) * channels == frame * channels);
        }
        frame as usize * channels
    } else {
        0
    };
    let mut c: usize = 0;
    while c < channels
        invariant
            c <= channels,
            channels == track.channels,
            inside == (0 <= frame < track.frames()),
            inside ==> first == frame * channels,
            n == track.samples@.len(),
            inside ==> first + channels <= n,
            out@.len() == before.len() + c,
            forall|i: int| 0 <= i < before.len() ==> out@[i] == before[i],
            forall|d: int|
                0 <= d < c ==> #[trigger] out@[before.len() + d] == sample_at(track, frame as int, d),
        decreases channels - c,
    {
        if inside {
            out.push(track.samples[first + c]);
        } else {
            out.push(Single::zero());
        }
        c = c + 1;
    }
}

/// Builds the audio buffer for a stretch of video.
///
/// `t_in_s` and `t_out_s` bound the stretch of video, in seconds. The buffer
/// covers exactly that stretch, with silence where the track does not reach.
pub fn build_segment(track: &AudioTrack, t_in_s: Double, t_out_s: Double) -> (out: Vec<Single>)
    requires
        segment_length(track, t_in_s, t_out_s) <= usize::MAX,
    ensures
        out@ == segment(track, t_in_s, t_out_s),
{
    let mut out: Vec<Single> = Vec::new();
    if track.channels == 0 || track.sample_rate == 0 || t_out_s.at_most(t_in_s) {
        proof {
            assert(out@ =~= segment(track, t_in_s, t_out_s));
        }
        return out;
    }
    let channels: usize = track.channels as usize;
    let rate = Double::from_u64(track.sample_rate as u64);
    let rounded: i64 = t_out_s.minus(t_in_s).times(rate).round_i64();
    let wanted: u64 = if rounded > 0 {
        rounded as u64
    } else {
        0
    };
    let start = video_time_to_audio_frame(t_in_s, track.offset_seconds, track.sample_rate);
    let available = track.frame_count();
    let ghost all = segment(track, t_in_s, t_out_s);
    let mut f: u64 = 0;
    while f < wanted
        invariant
            f <= wanted,
            channels == track.channels,
            channels > 0,
            available == track.frames(),
            wanted <= 0x7fff_ffff_ffff_ffff,
            wanted == frames_wanted(t_in_s, t_out_s, track.sample_rate),
            start == frame_at(t_in_s, track.offset_seconds, track.sample_rate),
            calls_for_audio(track, t_in_s, t_out_s),
            all == segment(track, t_in_s, t_out_s),
            out@.len() == f * channels,
            forall|i: int| 0 <= i < out@.len() ==> out@[i] == all[i],
        decreases wanted - f,
    {
        let ghost before = out@;
        push_frame(&mut out, track, start as i128 + f as i128, available);
        proof {
            let ch = channels as int;
            assert((f + 1) * ch == f * ch + ch) by (nonlinear_arith);
            assert((f + 1) * ch <= wanted * ch) by (nonlinear_arith)
                requires
                    f + 1 <= wanted,
                    ch > 0,
            ;
            assert forall|i: int| 0 <= i < out@.len() implies out@[i] == all[i] by {
                if i < before.len() {
                    assert(out@[i] == before[i]);
                } else {
                    let c = i - before.len();
                    assert(i == f * ch + c);
                    lemma_fundamental_div_mod_converse(i, ch, f as int, c);
                    assert(out@[before.len() + c] == sample_at(track, start + f, c));
                }
            }
        }
        f = f + 1;
    }
    proof {
        assert(out@ =~= all);
    }
    out
}

/// The buffers for several stretches of video, one after the other.
pub open spec fn segments(track: &AudioTrack, ranges: Seq<(Double, Double)>) -> Seq<Single>
    decreases ranges.len(),
{
    if ranges.len() == 0 {
        Seq::empty()
    } else {
        let last = ranges.last();
        segments(track, ranges.drop_last()) + segment(track, last.0, last.1)
    }
}

/// The buffers of joined ranges are the joined buffers: nothing is merged,
/// sorted or left out. One range gives its own buffer, and none gives nothing.
pub proof fn law_joined_ranges_are_joined_buffers(
    track: &AudioTrack,
    a: Seq<(Double, Double)>,
    b: Seq<(Double, Double)>,
)
    ensures
        segments(track, a + b) == segments(track, a) + segments(track, b),
        a.len() == 1 ==> segments(track, a) == segment(track, a[0].0, a[0].1),
        a.len() == 0 ==> segments(track, a) == Seq::<Single>::empty(),
    decreases b.len(),
{
    if b.len() == 0 {
        assert(a + b =~= a);
        assert(segments(track, a) + segments(track, b) =~= segments(track, a));
    } else {
        law_joined_ranges_are_joined_buffers(track, a, b.drop_last());
        assert((a + b).drop_last() =~= a + b.drop_last());
        assert((a + b).last() == b.last());
        let tail = segment(track, b.last().0, b.last().1);
        assert(segments(track, a) + segments(track, b.drop_last()) + tail =~= segments(track, a) + (
        segments(track, b.drop_last()) + tail));
    }
    if a.len() == 1 {
        assert(a.drop_last() =~= Seq::empty());
        assert(segments(track, a.drop_last()) == Seq::<Single>::empty());
        assert(segments(track, a) =~= segment(track, a[0].0, a[0].1));
    }
}

/// Builds the buffer for several stretches of video, joined in the order given.
///
/// Each stretch is mapped on its own, as the video is.
pub fn build_segments(track: &AudioTrack, ranges: &[(Double, Double)]) -> (out: Vec<Single>)
    requires
        forall|i: int|
            0 <= i < ranges@.len() ==> segment_length(track, (#[trigger] ranges@[i]).0, ranges@[i].1)
                <= usize::MAX,
    ensures
        out@ == segments(track, ranges@),
{
    let mut out: Vec<Single> = Vec::new();
    let mut i: usize = 0;
    proof {
        assert(ranges@.take(0) =~= Seq::empty());
    }
    while i < ranges.len()
        invariant
            i <= ranges@.len(),
            forall|k: int|
                0 <= k < ranges@.len() ==> segment_length(
                    track,
                    (#[trigger] ranges@[k]).0,
                    ranges@[k].1,
                ) <= usize::MAX,
            out@ == segments(track, ranges@.take(i as int)),
        decreases ranges@.len() - i,
    {
        let (t_in, t_out) = ranges[i];
        assert(segment_length(track, ranges@[i as int].0, ranges@[i as int].1) <= usize::MAX);
        let mut part = build_segment(track, t_in, t_out);
        out.append(&mut part);
        i = i + 1;
        proof {
            assert(ranges@.take(i as int).drop_last() =~= ranges@.take(i - 1));
        }
    }
    proof {
        assert(ranges@.take(i as int) =~= ranges@);
    }
    out
}

/// A stretch given as fractions of the video, in seconds.
pub open spec fn stretch(range: (Double, Double), duration_s: Double) -> (Double, Double) {
    (range.0.times(duration_s), range.1.times(duration_s))
}

/// The stretches that trim ranges cut a video into; with no range, all of it.
pub open spec fn stretches(ranges: Seq<(Double, Double)>, duration_s: Double) -> Seq<
    (Double, Double),
> {
    if ranges.len() == 0 {
        seq![(Double::zero(), duration_s)]
    } else {
        Seq::new(ranges.len(), |i: int| stretch(ranges[i], duration_s))
    }
}

/// Builds the buffer for the trim ranges of a video, given as fractions of its
/// duration. Without ranges the buffer covers the whole video.
pub fn build_from_trim_ranges(
    track: &AudioTrack,
    ranges: &[(Double, Double)],
    duration_s: Double,
) -> (out: Vec<Single>)
    requires
        forall|i: int|
            0 <= i < stretches(ranges@, duration_s).len() ==> {
                let s = #[trigger] stretches(ranges@, duration_s)[i];
                segment_length(track, s.0, s.1) <= usize::MAX
            },
    ensures
        out@ == segments(track, stretches(ranges@, duration_s)),
{
    let mut cut: Vec<(Double, Double)> = Vec::new();
    let ghost all = stretches(ranges@, duration_s);
    if ranges.len() == 0 {
        cut.push((Double::zero(), duration_s));
    }
    let mut i: usize = 0;
    while i < ranges.len()
        invariant
            i <= ranges@.len(),
            all == stretches(ranges@, duration_s),
            ranges@.len() > 0 ==> cut@ == all.take(i as int),
            ranges@.len() == 0 ==> cut@ == all,
        decreases ranges@.len() - i,
    {
        let (a, b) = ranges[i];
        cut.push((a.times(duration_s), b.times(duration_s)));
        i = i + 1;
        proof {
            assert(all.take(i as int) =~= all.take(i - 1).push(all[i - 1]));
        }
    }
    proof {
        assert(ranges@.len() > 0 ==> all.take(i as int) =~= all);
    }
    build_segments(track, cut.as_slice())
}

/// The buffer for trim ranges is joined of the buffers of the ranges, each taken
/// alone, in the order given: every range is there, from its start to its end as
/// fractions of the video, and so are as many samples as they call for together.
/// Without ranges it is the buffer of the whole video.
pub proof fn law_trim_ranges_are_joined(
    track: &AudioTrack,
    a: Seq<(Double, Double)>,
    b: Seq<(Double, Double)>,
    duration_s: Double,
)
    ensures
        a.len() > 0 && b.len() > 0 ==> segments(track, stretches(a + b, duration_s)) == segments(
            track,
            stretches(a, duration_s),
        ) + segments(track, stretches(b, duration_s)),
        a.len() == 1 ==> segments(track, stretches(a, duration_s)) == segment(
            track,
            a[0].0.times(duration_s),
            a[0].1.times(duration_s),
        ),
        a.len() == 0 ==> segments(track, stretches(a, duration_s)) == segment(
            track,
            Double::zero(),
            duration_s,
        ),
        stretches(a, duration_s).len() == if a.len() == 0 {
            1
        } else {
            a.len()
        },
{
    let (x, y) = (stretches(a, duration_s), stretches(b, duration_s));
    law_joined_ranges_are_joined_buffers(track, x, y);
    if a.len() > 0 && b.len() > 0 {
        assert(stretches(a + b, duration_s) =~= x + y);
    }
}

/// Each range has its own place in the buffer for trim ranges: its samples follow
/// those of the ranges before it, and those of the ranges after it follow them.
pub proof fn law_every_trim_range_is_there(
    track: &AudioTrack,
    ranges: Seq<(Double, Double)>,
    duration_s: Double,
    i: int,
)
    requires
        0 <= i < ranges.len(),
    ensures
        ({
            let out = segments(track, stretches(ranges, duration_s));
            let own = segment(
                track,
                ranges[i].0.times(duration_s),
                ranges[i].1.times(duration_s),
            );
            let before = if i == 0 {
                Seq::<Single>::empty()
            } else {
                segments(track, stretches(ranges.take(i), duration_s))
            };
            let after = if i + 1 == ranges.len() {
                Seq::<Single>::empty()
            } else {
                segments(track, stretches(ranges.skip(i + 1), duration_s))
            };
            out == before + own + after
        }),
{
    let (a, b, c) = (ranges.take(i), seq![ranges[i]], ranges.skip(i + 1));
    let own = segment(track, ranges[i].0.times(duration_s), ranges[i].1.times(duration_s));
    law_trim_ranges_are_joined(track, b, c, duration_s);
    law_trim_ranges_are_joined(track, a, b, duration_s);
    law_trim_ranges_are_joined(track, a + b, c, duration_s);
    assert(a + b + c =~= ranges);
    if i == 0 {
        assert(a + b =~= b);
        assert(Seq::<Single>::empty() + own =~= own);
    }
    if i + 1 == ranges.len() {
        assert(a + b =~= ranges);
        let whole = segments(track, stretches(ranges, duration_s));
        assert(whole + Seq::<Single>::empty() =~= whole);
    }
}

} // verus!
