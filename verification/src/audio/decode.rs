//! Decoding of the external audio file.
//!
//! The container is read with `symphonia`. Samples are kept as interleaved `f32`
//! with every original channel, and the source format is recorded so that the
//! export can rebuild the file without loss.

use crate::audio::container;
use crate::audio::container::Verdict;
use crate::audio::signal;
use crate::audio::{AudioTrack, SourceFormat};
use crate::ieee::double::Double;
use crate::ieee::single::Single;
use crate::text;
use vstd::arithmetic::div_mod::*;
use vstd::prelude::*;
use vstd::string::*;

verus! {

/// What `symphonia` opened: a reader placed before the first packet.
#[verifier::external_type_specification]
#[verifier::external_body]
pub struct ExProbeResult(symphonia::core::probe::ProbeResult);

/// Sample formats as `symphonia` names them.
#[verifier::external_type_specification]
pub struct ExSampleFormat(symphonia::core::sample::SampleFormat);

/// Failures in importing an audio file.
#[derive(Debug, Clone, PartialEq, Eq)]
pub enum DecodeError {
    Open(String),
    UnsupportedFormat(String),
    NoAudioTrack,
    MissingSampleRate,
    Decode(String),
    Empty,
}

/// What a [`DecodeError`] holds.
pub ghost enum Failing {
    Open(Seq<char>),
    UnsupportedFormat(Seq<char>),
    NoAudioTrack,
    MissingSampleRate,
    Decode(Seq<char>),
    Empty,
}

impl View for DecodeError {
    type V = Failing;

    open spec fn view(&self) -> Failing {
        match self {
            DecodeError::Open(e) => Failing::Open(e@),
            DecodeError::UnsupportedFormat(e) => Failing::UnsupportedFormat(e@),
            DecodeError::NoAudioTrack => Failing::NoAudioTrack,
            DecodeError::MissingSampleRate => Failing::MissingSampleRate,
            DecodeError::Decode(e) => Failing::Decode(e@),
            DecodeError::Empty => Failing::Empty,
        }
    }
}

impl Failing {
    /// The text shown to the user.
    pub open spec fn message(self) -> Seq<char> {
        match self {
            Failing::Open(e) => "Não foi possível abrir o arquivo de áudio: "@ + e,
            Failing::UnsupportedFormat(e) =>
            "Formato de áudio não reconhecido ou arquivo corrompido: "@ + e,
            Failing::NoAudioTrack =>
            "O arquivo não contém nenhuma trilha de áudio decodificável"@,
            Failing::MissingSampleRate =>
            "O arquivo não informa o sample rate da trilha de áudio"@,
            Failing::Decode(e) => "Falha ao decodificar o áudio: "@ + e,
            Failing::Empty => "A trilha de áudio está vazia"@,
        }
    }
}

fn joined(head: &str, tail: &String) -> (s: String)
    ensures
        s@ == head@ + tail@,
{
    let mut s = head.to_string();
    s.append(tail.as_str());
    s
}

impl DecodeError {
    /// The text shown to the user.
    pub fn message(&self) -> (s: String)
        ensures
            s@ == self@.message(),
    {
        match self {
            DecodeError::Open(e) => joined("Não foi possível abrir o arquivo de áudio: ", e),
            DecodeError::UnsupportedFormat(e) => joined(
                "Formato de áudio não reconhecido ou arquivo corrompido: ",
                e,
            ),
            DecodeError::NoAudioTrack =>
            "O arquivo não contém nenhuma trilha de áudio decodificável".to_string(),
            DecodeError::MissingSampleRate =>
            "O arquivo não informa o sample rate da trilha de áudio".to_string(),
            DecodeError::Decode(e) => joined("Falha ao decodificar o áudio: ", e),
            DecodeError::Empty => "A trilha de áudio está vazia".to_string(),
        }
    }
}

/// A track as its container describes it.
#[derive(Debug, Clone, Copy)]
pub struct TrackParams {
    pub id: u32,
    /// Number of the codec; 0 where there is none.
    pub codec: u32,
    pub sample_rate: Option<u32>,
    pub sample_format: Option<symphonia::core::sample::SampleFormat>,
    pub bits_per_sample: Option<u32>,
    /// Number of channels; 0 where the container does not say.
    pub channels: u16,
}

/// A track as `symphonia` declares it: its id, its codec as it is printed, and
/// what is known of its sample rate, sample format, bits per sample and number
/// of channels.
pub type Declared = (
    u32,
    String,
    Option<u32>,
    Option<symphonia::core::sample::SampleFormat>,
    Option<u32>,
    Option<usize>,
);

/// A [`Declared`] track, its codec as characters.
pub type Described = (
    u32,
    Seq<char>,
    Option<u32>,
    Option<symphonia::core::sample::SampleFormat>,
    Option<u32>,
    Option<usize>,
);

/// What declared tracks say.
pub open spec fn described(tracks: Seq<Declared>) -> Seq<Described> {
    tracks.map_values(|d: Declared| (d.0, d.1@, d.2, d.3, d.4, d.5))
}

/// The tracks that a container in memory declares, or the text of the error for
/// what is no container; the extension of the file name may be given as a hint.
pub uninterp spec fn probed(bytes: Seq<u8>, extension: Option<Seq<char>>) -> Result<
    Seq<Described>,
    Seq<char>,
>;

/// The bytes that what was opened hands out its packets from.
pub uninterp spec fn read_from(opened: symphonia::core::probe::ProbeResult) -> Seq<u8>;

/// An optional text as characters.
pub open spec fn hint_text(extension: Option<&str>) -> Option<Seq<char>> {
    match extension {
        Some(e) => Some(e@),
        None => None,
    }
}

/// Opens a container in memory with `symphonia`'s default probe
/// (`symphonia::default::get_probe().format`).
///
/// Which tracks come back, or which error text, is a function of the bytes and
/// of the extension alone, and is named [`probed`]. The reader that comes back
/// with them is over these bytes, named [`read_from`]; of the packets that it
/// hands out nothing is said.
///
/// The readers behind the probe panic on the headers by which
/// [`container::verdict`] finds a file lost, and reserve more than the length of
/// the file where it finds one cut. What a frame of an ID3 tag or a block of a FLAC
/// stream announces, below 4 GiB, is reserved before it is found too long.
#[verifier::external_body]
fn probe(bytes: Vec<u8>, extension: Option<&str>) -> (r: Result<
    (symphonia::core::probe::ProbeResult, Vec<Declared>),
    String,
>)
    requires
        container::verdict(bytes@) == Verdict::Sound,
    ensures
        match r {
            Ok(found) => {
                &&& probed(bytes@, hint_text(extension)) == Ok::<Seq<Described>, Seq<char>>(
                    described(found.1@),
                )
                &&& read_from(found.0) == bytes@
            },
            Err(e) => probed(bytes@, hint_text(extension)) == Err::<Seq<Described>, Seq<char>>(e@),
        },
{
    let mut hint = symphonia::core::probe::Hint::new();
    extension.map(|e| { hint.with_extension(e); });
    let opened = symphonia::default::get_probe().format(
        &hint,
        symphonia::core::io::MediaSourceStream::new(Box::new(std::io::Cursor::new(bytes)), Default::default()),
        &Default::default(),
        &Default::default(),
    ).map_err(|e| e.to_string())?;
    let tracks = opened.format.tracks().iter().map(|t| (t.id, t.codec_params.codec.to_string(),
        t.codec_params.sample_rate, t.codec_params.sample_format, t.codec_params.bits_per_sample,
        t.codec_params.channels.map(|c| c.count()))).collect();
    Ok((opened, tracks))
}

/// Value of a hexadecimal digit in lower case.
pub open spec fn hex_digit(c: char) -> Option<nat> {
    if '0' <= c <= '9' {
        Some((c as u32 - 48) as nat)
    } else if 'a' <= c <= 'f' {
        Some((c as u32 - 87) as nat)
    } else {
        None
    }
}

/// The number that hexadecimal digits write.
pub open spec fn hex_number(s: Seq<char>) -> Option<nat>
    decreases s.len(),
{
    if s.len() == 0 {
        Some(0)
    } else {
        match (hex_number(s.drop_last()), hex_digit(s.last())) {
            (Some(n), Some(d)) => Some(16 * n + d),
            _ => None,
        }
    }
}

/// The number of a codec that is printed as `0x` and hexadecimal digits; 0 for
/// any other text.
pub open spec fn codec_number(s: Seq<char>) -> u32 {
    if s.len() > 2 && s.len() <= 10 && s[0] == '0' && s[1] == 'x' {
        match hex_number(s.skip(2)) {
            Some(n) => n as u32,
            None => 0,
        }
    } else {
        0
    }
}

/// Eight hexadecimal digits fit into 32 bits.
proof fn lemma_hex_bound(s: Seq<char>)
    requires
        s.len() <= 8,
    ensures
        hex_number(s) matches Some(n) ==> n < vstd::arithmetic::power::pow(16, s.len()) <= 0x1_0000_0000,
    decreases s.len(),
{
    vstd::arithmetic::power::lemma_pow0(16);
    assert(vstd::arithmetic::power::pow(16, 8) == 0x1_0000_0000) by {
        reveal_with_fuel(vstd::arithmetic::power::pow, 9);
    }
    vstd::arithmetic::power::lemma_pow_increases(16, s.len(), 8);
    if s.len() > 0 {
        lemma_hex_bound(s.drop_last());
        reveal(vstd::arithmetic::power::pow);
    }
}

/// [`codec_number`], computed.
fn read_codec(text: &str) -> (r: u32)
    ensures
        r == codec_number(text@),
{
    let v = text::chars_of(text);
    let n: usize = v.len();
    if n <= 2 || n > 10 || v[0] != '0' || v[1] != 'x' {
        return 0;
    }
    let ghost digits = v@.skip(2);
    let mut r: u64 = 0;
    let mut i: usize = 2;
    let mut sound = true;
    proof {
        assert(digits.take(0) =~= Seq::empty());
    }
    while i < n
        invariant
            2 <= i <= n <= 10,
            n == v.len(),
            digits == v@.skip(2),
            sound <==> hex_number(digits.take(i - 2)) is Some,
            sound ==> hex_number(digits.take(i - 2)) == Some(r as nat),
            r < 0x1_0000_0000,
        decreases n - i,
    {
        let c = v[i];
        proof {
            let next = digits.take(i - 1);
            assert(next.drop_last() =~= digits.take(i - 2));
            assert(next.last() == c);
            lemma_hex_bound(next);
        }
        let d: u64 = if '0' <= c && c <= '9' {
            (c as u8 - 48) as u64
        } else if 'a' <= c && c <= 'f' {
            (c as u8 - 87) as u64
        } else {
            sound = false;
            0
        };
        r = if sound {
            16 * r + d
        } else {
            0
        };
        i = i + 1;
    }
    proof {
        assert(digits.take(i - 2) =~= digits);
    }
    if sound {
        r as u32
    } else {
        0
    }
}

/// What is read of a declared track.
pub open spec fn params_of(d: Described) -> TrackParams {
    TrackParams {
        id: d.0,
        codec: codec_number(d.1),
        sample_rate: d.2,
        sample_format: d.3,
        bits_per_sample: d.4,
        channels: match d.5 {
            Some(n) => n as u16,
            None => 0,
        },
    }
}

/// What is read of declared tracks.
pub open spec fn all_params(tracks: Seq<Described>) -> Seq<TrackParams> {
    tracks.map_values(|d: Described| params_of(d))
}

/// [`all_params`], computed.
fn read_params(tracks: &Vec<Declared>) -> (r: Vec<TrackParams>)
    ensures
        r@ == all_params(described(tracks@)),
{
    let ghost all = all_params(described(tracks@));
    let mut r: Vec<TrackParams> = Vec::new();
    let mut i: usize = 0;
    while i < tracks.len()
        invariant
            i <= tracks@.len(),
            all == all_params(described(tracks@)),
            r@ == all.take(i as int),
        decreases tracks@.len() - i,
    {
        let d = &tracks[i];
        r.push(
            TrackParams {
                id: d.0,
                codec: read_codec(d.1.as_str()),
                sample_rate: d.2,
                sample_format: d.3,
                bits_per_sample: d.4,
                channels: match d.5 {
                    Some(n) => n as u16,
                    None => 0,
                },
            },
        );
        i = i + 1;
        proof {
            assert(all.take(i as int) =~= all.take(i - 1).push(all[i - 1]));
        }
    }
    proof {
        assert(all.take(i as int) =~= all);
    }
    r
}

/// Numbers of the PCM codecs: each kind of sample has four, for both byte orders
/// and both layouts, but for the 8-bit ones, which have two.
pub const PCM_S32: u32 = 0x100;

pub const PCM_S24: u32 = 0x104;

pub const PCM_S16: u32 = 0x108;

pub const PCM_S8: u32 = 0x10c;

pub const PCM_U32: u32 = 0x10e;

pub const PCM_U24: u32 = 0x112;

pub const PCM_U16: u32 = 0x116;

pub const PCM_U8: u32 = 0x11a;

pub const PCM_F32: u32 = 0x11c;

pub const PCM_F64: u32 = 0x120;

/// Source format of a PCM codec.
pub open spec fn pcm_format(codec: u32) -> Option<SourceFormat> {
    if PCM_F32 <= codec < PCM_F32 + 4 || PCM_F64 <= codec < PCM_F64 + 4 {
        Some(SourceFormat::F32)
    } else if PCM_S32 <= codec < PCM_S32 + 4 || PCM_U32 <= codec < PCM_U32 + 4 {
        Some(SourceFormat::S32)
    } else if PCM_S24 <= codec < PCM_S24 + 4 || PCM_U24 <= codec < PCM_U24 + 4 {
        Some(SourceFormat::S24)
    } else if PCM_S16 <= codec < PCM_S16 + 4 || PCM_U16 <= codec < PCM_U16 + 4 {
        Some(SourceFormat::S16)
    } else if PCM_S8 <= codec < PCM_S8 + 2 || PCM_U8 <= codec < PCM_U8 + 2 {
        Some(SourceFormat::U8)
    } else {
        None
    }
}

/// Source format of a codec, by its number; `None` where it is not PCM.
///
/// For PCM the container leaves the sample format open: the codec tells.
pub fn map_codec_type(codec: u32) -> (r: Option<SourceFormat>)
    ensures
        r == pcm_format(codec),
{
    if (PCM_F32 <= codec && codec < PCM_F32 + 4) || (PCM_F64 <= codec && codec < PCM_F64 + 4) {
        Some(SourceFormat::F32)
    } else if (PCM_S32 <= codec && codec < PCM_S32 + 4) || (PCM_U32 <= codec && codec < PCM_U32
        + 4) {
        Some(SourceFormat::S32)
    } else if (PCM_S24 <= codec && codec < PCM_S24 + 4) || (PCM_U24 <= codec && codec < PCM_U24
        + 4) {
        Some(SourceFormat::S24)
    } else if (PCM_S16 <= codec && codec < PCM_S16 + 4) || (PCM_U16 <= codec && codec < PCM_U16
        + 4) {
        Some(SourceFormat::S16)
    } else if (PCM_S8 <= codec && codec < PCM_S8 + 2) || (PCM_U8 <= codec && codec < PCM_U8 + 2) {
        Some(SourceFormat::U8)
    } else {
        None
    }
}

/// Source format of a reported sample format.
pub open spec fn format_of(
    sample_format: Option<symphonia::core::sample::SampleFormat>,
    bits_per_sample: Option<u32>,
) -> SourceFormat {
    match sample_format {
        Some(symphonia::core::sample::SampleFormat::F32) => SourceFormat::F32,
        Some(symphonia::core::sample::SampleFormat::F64) => SourceFormat::F32,
        Some(symphonia::core::sample::SampleFormat::S32)
        | Some(symphonia::core::sample::SampleFormat::U32) => if bits_per_sample == Some(24u32) {
            SourceFormat::S24
        } else {
            SourceFormat::S32
        },
        Some(symphonia::core::sample::SampleFormat::S24)
        | Some(symphonia::core::sample::SampleFormat::U24) => SourceFormat::S24,
        Some(symphonia::core::sample::SampleFormat::S16)
        | Some(symphonia::core::sample::SampleFormat::U16) => SourceFormat::S16,
        Some(symphonia::core::sample::SampleFormat::S8)
        | Some(symphonia::core::sample::SampleFormat::U8) => SourceFormat::U8,
        None => SourceFormat::Other,
    }
}

/// Source format of a reported sample format.
///
/// A 24-bit file is usually delivered as 32-bit samples with 24 bits each; the
/// difference is kept. Lossy codecs report no format: there is none to keep.
pub fn map_source_format(
    sample_format: Option<symphonia::core::sample::SampleFormat>,
    bits_per_sample: Option<u32>,
) -> (r: SourceFormat)
    ensures
        r == format_of(sample_format, bits_per_sample),
{
    match sample_format {
        Some(symphonia::core::sample::SampleFormat::F32) => SourceFormat::F32,
        Some(symphonia::core::sample::SampleFormat::F64) => SourceFormat::F32,
        Some(symphonia::core::sample::SampleFormat::S32)
        | Some(symphonia::core::sample::SampleFormat::U32) => match bits_per_sample {
            Some(24) => SourceFormat::S24,
            _ => SourceFormat::S32,
        },
        Some(symphonia::core::sample::SampleFormat::S24)
        | Some(symphonia::core::sample::SampleFormat::U24) => SourceFormat::S24,
        Some(symphonia::core::sample::SampleFormat::S16)
        | Some(symphonia::core::sample::SampleFormat::U16) => SourceFormat::S16,
        Some(symphonia::core::sample::SampleFormat::S8)
        | Some(symphonia::core::sample::SampleFormat::U8) => SourceFormat::U8,
        None => SourceFormat::Other,
    }
}

/// The mean of each frame of interleaved samples.
pub open spec fn frame_means(interleaved: Seq<Single>, channels: nat) -> Seq<Single> {
    Seq::new(
        interleaved.len() / channels,
        |f: int| signal::mean(interleaved.subrange(f * channels, f * channels + channels)),
    )
}

/// The mono downmix of interleaved samples.
pub open spec fn downmixed(interleaved: Seq<Single>, channels: u16) -> Seq<Single> {
    if channels <= 1 {
        interleaved
    } else {
        frame_means(interleaved, channels as nat)
    }
}

/// Makes the mono downmix that only the alignment reads: the plain mean of the
/// channels, since envelopes of energy do not depend on phase or gain.
pub fn downmix_to_mono(interleaved: &[Single], channels: u16) -> (mono: Vec<Single>)
    ensures
        mono@ == downmixed(interleaved@, channels),
{
    let mut mono: Vec<Single> = Vec::new();
    let n: usize = interleaved.len();
    if channels <= 1 {
        let mut i: usize = 0;
        proof {
            assert(interleaved@.take(0) =~= Seq::empty());
        }
        while i < n
            invariant
                i <= n,
                n == interleaved@.len(),
                mono@ == interleaved@.take(i as int),
            decreases n - i,
        {
            mono.push(interleaved[i]);
            i = i + 1;
            proof {
                assert(interleaved@.take(i as int) =~= interleaved@.take(i - 1).push(
                    interleaved@[i - 1],
                ));
            }
        }
        proof {
            assert(interleaved@.take(i as int) =~= interleaved@);
        }
        return mono;
    }
    let count: usize = channels as usize;
    let frames: usize = n / count;
    let ghost all = frame_means(interleaved@, count as nat);
    proof {
        lemma_fundamental_div_mod(n as int, count as int);
        lemma_mod_bound(n as int, count as int);
        assert(frames * count <= n) by (nonlinear_arith)
            requires
                n == count * frames + n as int % count as int,
                n as int % count as int >= 0,
        ;
        assert(all.take(0) =~= Seq::empty());
    }
    let mut f: usize = 0;
    while f < frames
        invariant
            f <= frames,
            count > 1,
            n == interleaved@.len(),
            frames == n / count,
            frames * count <= n,
            all == frame_means(interleaved@, count as nat),
            mono@ == all.take(f as int),
        decreases frames - f,
    {
        proof {
            assert(f * count + count <= frames * count) by (nonlinear_arith)
                requires
                    f + 1 <= frames,
            ;
        }
        let first: usize = f * count;
        mono.push(signal::mean_of(interleaved, first, first + count));
        f = f + 1;
        proof {
            assert(all.take(f as int) =~= all.take(f - 1).push(all[f - 1]));
        }
    }
    proof {
        assert(all.take(f as int) =~= all);
    }
    mono
}

/// The track of a file that is imported.
#[derive(Debug, Clone, Copy, PartialEq, Eq, Structural)]
pub struct ChosenTrack {
    pub id: u32,
    pub sample_rate: u32,
    pub source_format: SourceFormat,
    /// Number of channels; 0 where the container does not say.
    pub channels: u16,
}

/// The first track with a codec is the `i`-th.
pub open spec fn is_first_with_codec(tracks: Seq<TrackParams>, i: int) -> bool {
    &&& 0 <= i < tracks.len()
    &&& tracks[i].codec != 0
    &&& forall|j: int| 0 <= j < i ==> (#[trigger] tracks[j]).codec == 0
}

/// What is imported of a track, where it has a sample rate.
pub open spec fn chosen(t: TrackParams) -> Option<ChosenTrack> {
    match t.sample_rate {
        None => None,
        Some(rate) => Some(
            ChosenTrack {
                id: t.id,
                sample_rate: rate,
                source_format: match pcm_format(t.codec) {
                    Some(f) => f,
                    None => format_of(t.sample_format, t.bits_per_sample),
                },
                channels: t.channels,
            },
        ),
    }
}

/// This is the outcome of choosing among the tracks of a file.
pub open spec fn chooses(
    tracks: Seq<TrackParams>,
    r: Result<ChosenTrack, DecodeError>,
) -> bool {
    if forall|i: int| 0 <= i < tracks.len() ==> (#[trigger] tracks[i]).codec == 0 {
        r matches Err(e) && e@ == Failing::NoAudioTrack
    } else {
        exists|i: int| #[trigger]
            is_first_with_codec(tracks, i) && match chosen(tracks[i]) {
                None => r matches Err(e) && e@ == Failing::MissingSampleRate,
                Some(c) => r == Ok::<ChosenTrack, DecodeError>(c),
            }
    }
}

/// Chooses the track to import: the first one with a codec.
pub fn choose_track(tracks: &[TrackParams]) -> (r: Result<ChosenTrack, DecodeError>)
    ensures
        chooses(tracks@, r),
{
    let mut i: usize = 0;
    while i < tracks.len() && tracks[i].codec == 0
        invariant
            i <= tracks@.len(),
            forall|j: int| 0 <= j < i ==> (#[trigger] tracks@[j]).codec == 0,
        decreases tracks@.len() - i,
    {
        i = i + 1;
    }
    if i == tracks.len() {
        return Err(DecodeError::NoAudioTrack);
    }
    let t = tracks[i];
    assert(is_first_with_codec(tracks@, i as int));
    let sample_rate = match t.sample_rate {
        None => {
            return Err(DecodeError::MissingSampleRate);
        },
        Some(rate) => rate,
    };
    let source_format = match map_codec_type(t.codec) {
        Some(f) => f,
        None => map_source_format(t.sample_format, t.bits_per_sample),
    };
    Ok(ChosenTrack { id: t.id, sample_rate, source_format, channels: t.channels })
}

/// Opens an audio file in memory and chooses the track to import. The reader
/// comes back over these bytes, ready to hand out the packets.
///
/// A file with headers that no reader survives is not opened at all, nor is one
/// whose headers announce more than there is.
pub fn open_audio(bytes: Vec<u8>, extension: Option<&str>) -> (r: Result<
    (symphonia::core::probe::ProbeResult, ChosenTrack),
    DecodeError,
>)
    ensures
        match container::verdict(bytes@) {
            Verdict::Lost => r matches Err(e) && e@ == Failing::UnsupportedFormat(
                "cabeçalho malformado"@,
            ),
            Verdict::Cut => r matches Err(e) && e@ == Failing::UnsupportedFormat(
                "end of stream"@,
            ),
            Verdict::Sound => match (probed(bytes@, hint_text(extension)), r) {
                (Err(text), Err(e)) => e@ == Failing::UnsupportedFormat(text),
                (Err(_), Ok(_)) => false,
                (Ok(tracks), Ok(opened)) => {
                    &&& chooses(all_params(tracks), Ok(opened.1))
                    &&& read_from(opened.0) == bytes@
                },
                (Ok(tracks), Err(e)) => chooses(all_params(tracks), Err(e)),
            },
        },
{
    match container::inspect(&bytes) {
        Verdict::Lost => {
            return Err(DecodeError::UnsupportedFormat("cabeçalho malformado".to_string()));
        },
        Verdict::Cut => {
            return Err(DecodeError::UnsupportedFormat("end of stream".to_string()));
        },
        Verdict::Sound => {},
    }
    match probe(bytes, extension) {
        Err(text) => Err(DecodeError::UnsupportedFormat(text)),
        Ok((reader, tracks)) => match choose_track(read_params(&tracks).as_slice()) {
            Err(e) => Err(e),
            Ok(track) => Ok((reader, track)),
        },
    }
}

/// Why a packet could not be read or decoded.
#[derive(Debug, Clone, PartialEq, Eq)]
pub enum Failure {
    /// Reading failed; `end` where the data ended.
    Io { end: bool, text: String },
    /// The data is malformed.
    Malformed(String),
    Seek(String),
    Unsupported(String),
    Limit(String),
    /// The reader wants to start over.
    ResetRequired(String),
}

impl Failure {
    pub open spec fn text(&self) -> Seq<char> {
        match self {
            Failure::Io { text, .. } => text@,
            Failure::Malformed(text) => text@,
            Failure::Seek(text) => text@,
            Failure::Unsupported(text) => text@,
            Failure::Limit(text) => text@,
            Failure::ResetRequired(text) => text@,
        }
    }

    fn into_text(self) -> (s: String)
        ensures
            s@ == self.text(),
    {
        match self {
            Failure::Io { text, .. } => text,
            Failure::Malformed(text) => text,
            Failure::Seek(text) => text,
            Failure::Unsupported(text) => text,
            Failure::Limit(text) => text,
            Failure::ResetRequired(text) => text,
        }
    }

    /// One of the two normal ways for a stream to end.
    pub open spec fn ends_stream(&self) -> bool {
        match self {
            Failure::Io { end, .. } => *end,
            Failure::ResetRequired(_) => true,
            _ => false,
        }
    }

    /// A single damaged packet, which does not spoil the file.
    pub open spec fn spares_file(&self) -> bool {
        self is Io || self is Malformed
    }
}

/// What to do after a packet was asked for.
#[derive(Debug, Clone, PartialEq, Eq)]
pub enum Step {
    /// Decode the packet.
    Decode,
    /// Pass over the packet and ask for the next.
    Skip,
    /// There are no more packets.
    Finish,
    /// Give up.
    Fail(DecodeError),
}

/// An import under way: the track and what has been decoded of it.
#[derive(Debug, Clone)]
pub struct Decoding {
    pub track: ChosenTrack,
    /// Number of channels; 0 until it is known.
    pub channels: u16,
    /// Samples of every channel, interleaved.
    pub samples: Vec<Single>,
}

/// Channels known after a buffer with `found` channels.
pub open spec fn channels_after(known: u16, found: u16) -> u16 {
    if known == 0 {
        found
    } else {
        known
    }
}

impl Decoding {
    /// Starts an import.
    pub fn new(track: ChosenTrack) -> (d: Decoding)
        ensures
            d.track == track,
            d.channels == track.channels,
            d.samples@ == Seq::<Single>::empty(),
    {
        Decoding { track, channels: track.channels, samples: Vec::new() }
    }

    /// Decides what to do with the packet that was read, given by the track it
    /// belongs to, or with the failure to read one.
    pub fn after_read(&self, read: Result<u32, Failure>) -> (step: Step)
        ensures
            match read {
                Ok(id) => step == if id == self.track.id {
                    Step::Decode
                } else {
                    Step::Skip
                },
                Err(f) => if f.ends_stream() {
                    step == Step::Finish
                } else {
                    (step matches Step::Fail(e) && e@ == Failing::Decode(f.text()))
                },
            },
    {
        match read {
            Ok(id) => if id == self.track.id {
                Step::Decode
            } else {
                Step::Skip
            },
            Err(Failure::ResetRequired(_)) => Step::Finish,
            Err(f) => {
                let end = match &f {
                    Failure::Io { end, .. } => *end,
                    _ => false,
                };
                if end {
                    Step::Finish
                } else {
                    Step::Fail(DecodeError::Decode(f.into_text()))
                }
            },
        }
    }

    /// Takes in what became of a packet: its number of channels and its samples,
    /// interleaved, or the failure to decode it. A damaged packet is passed over.
    pub fn after_decode(&mut self, decoded: Result<(u16, Vec<Single>), Failure>) -> (r: Result<
        (),
        DecodeError,
    >)
        ensures
            final(self).track == old(self).track,
            match decoded {
                Ok(buffer) => {
                    &&& r is Ok
                    &&& final(self).channels == channels_after(old(self).channels, buffer.0)
                    &&& final(self).samples@ == old(self).samples@ + buffer.1@
                },
                Err(f) => {
                    &&& *final(self) == *old(self)
                    &&& f.spares_file() ==> r is Ok
                    &&& !f.spares_file() ==> (r matches Err(e) && e@ == Failing::Decode(f.text()))
                },
            },
    {
        match decoded {
            Ok((channels, samples)) => {
                let mut samples = samples;
                if self.channels == 0 {
                    self.channels = channels;
                }
                self.samples.append(&mut samples);
                Ok(())
            },
            Err(f) => {
                let spare = match &f {
                    Failure::Io { .. } => true,
                    Failure::Malformed(_) => true,
                    _ => false,
                };
                if spare {
                    Ok(())
                } else {
                    Err(DecodeError::Decode(f.into_text()))
                }
            },
        }
    }

    /// The imported track, from the file at `url`.
    pub fn finish(self, url: &str) -> (r: Result<AudioTrack, DecodeError>)
        ensures
            match r {
                Ok(t) => {
                    &&& self.samples@.len() > 0 && self.channels > 0
                    &&& t.path@ == url@
                    &&& t.samples@ == self.samples@
                    &&& t.channels == self.channels
                    &&& t.sample_rate == self.track.sample_rate
                    &&& t.source_format == self.track.source_format
                    &&& t.mono_analysis@ == downmixed(self.samples@, self.channels)
                    &&& t.offset_seconds == Double::zero()
                    &&& t.preserve_original_format
                },
                Err(e) => {
                    &&& self.samples@.len() == 0 || self.channels == 0
                    &&& e@ == Failing::Empty
                },
            },
    {
        if self.samples.len() == 0 || self.channels == 0 {
            return Err(DecodeError::Empty);
        }
        let mono_analysis = downmix_to_mono(self.samples.as_slice(), self.channels);
        Ok(
            AudioTrack {
                path: url.to_string(),
                samples: self.samples,
                channels: self.channels,
                sample_rate: self.track.sample_rate,
                source_format: self.track.source_format,
                mono_analysis,
                offset_seconds: Double::zero(),
                preserve_original_format: true,
            },
        )
    }
}

} // verus!
