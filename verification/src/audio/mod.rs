//! Synchronization of external audio with the gyroscope.
//!
//! A track recorded by a separate device is imported, aligned to the video and
//! turned into the buffer that is embedded on export.
//!
//! # Analysis audio is not export audio
//!
//! Two representations of one file live in [`AudioTrack`]:
//!
//! - [`AudioTrack::samples`] is what gets exported: every original channel, at
//!   the original rate, unquantized. The format the file came in is kept in
//!   [`AudioTrack::source_format`].
//! - [`AudioTrack::mono_analysis`] is a disposable mono downmix that only the
//!   automatic alignment reads. It is never exported.

pub mod closeness;
pub mod container;
pub mod decode;
pub mod export;
pub mod features;
pub mod flight;
pub mod instants;
pub mod laws;
pub mod measures;
pub mod normal;
pub mod order;
pub mod resonance;
pub mod rising;
pub mod signal;
pub mod spectra;
pub mod sync;
pub mod takeoff;
pub mod vibration;
pub mod waveform;

use crate::text;
use crate::ieee::double::Double;
use crate::ieee::single::Single;
use vstd::prelude::*;
use vstd::string::*;

verus! {

/// Format of the source file, kept so that it can be encoded again without loss.
#[derive(Debug, Clone, Copy, PartialEq, Eq, Structural)]
pub enum SourceFormat {
    /// IEEE float, 32 bits. Also the default: an empty track must not suggest
    /// that there is a format of lower precision to keep.
    F32,
    /// Signed integer PCM, 32 bits.
    S32,
    /// Signed integer PCM, 24 bits.
    S24,
    /// Signed integer PCM, 16 bits.
    S16,
    /// Unsigned integer PCM, 8 bits.
    U8,
    /// A lossy source, or a format that is not mapped.
    Other,
}

impl Default for SourceFormat {
    fn default() -> (r: SourceFormat)
        ensures
            r == SourceFormat::F32,
    {
        SourceFormat::F32
    }
}

impl SourceFormat {
    pub open spec fn spec_bits(self) -> u32 {
        match self {
            SourceFormat::F32 | SourceFormat::S32 => 32,
            SourceFormat::S24 => 24,
            SourceFormat::S16 => 16,
            SourceFormat::U8 => 8,
            SourceFormat::Other => 0,
        }
    }

    /// Nominal depth of the source format, in bits.
    #[verifier::when_used_as_spec(spec_bits)]
    pub fn bits(self) -> (r: u32)
        ensures
            r == self.spec_bits(),
    {
        match self {
            SourceFormat::F32 | SourceFormat::S32 => 32,
            SourceFormat::S24 => 24,
            SourceFormat::S16 => 16,
            SourceFormat::U8 => 8,
            SourceFormat::Other => 0,
        }
    }

    /// Whether the source is floating point.
    pub fn is_float(self) -> (r: bool)
        ensures
            r == (self == SourceFormat::F32),
    {
        match self {
            SourceFormat::F32 => true,
            _ => false,
        }
    }

    /// The text of [`SourceFormat::label`].
    pub open spec fn label_text(self) -> Seq<char> {
        match self {
            SourceFormat::F32 => "32-bit float"@,
            SourceFormat::S32 => "32-bit int"@,
            SourceFormat::S24 => "24-bit int"@,
            SourceFormat::S16 => "16-bit int"@,
            SourceFormat::U8 => "8-bit"@,
            SourceFormat::Other => "comprimido"@,
        }
    }

    /// Short label shown in the interface.
    pub fn label(self) -> (r: &'static str)
        ensures
            r@ == self.label_text(),
    {
        match self {
            SourceFormat::F32 => "32-bit float",
            SourceFormat::S32 => "32-bit int",
            SourceFormat::S24 => "24-bit int",
            SourceFormat::S16 => "16-bit int",
            SourceFormat::U8 => "8-bit",
            SourceFormat::Other => "comprimido",
        }
    }
}

/// An external audio track imported by the user.
#[derive(Debug, Clone)]
pub struct AudioTrack {
    /// Where the source file was loaded from.
    pub path: String,
    /// Samples of every channel, interleaved.
    pub samples: Vec<Single>,
    /// Channels of the original file.
    pub channels: u16,
    /// Sample rate of the original file, in Hz.
    pub sample_rate: u32,
    /// Format of the source file.
    pub source_format: SourceFormat,
    /// Mono downmix used by the automatic alignment alone.
    pub mono_analysis: Vec<Single>,
    /// Shift of the audio in seconds: `t_audio = t_video + offset`.
    pub offset_seconds: Double,
    /// Whether the source format must be kept bit by bit on export.
    pub preserve_original_format: bool,
}

impl Default for AudioTrack {
    fn default() -> (r: AudioTrack)
        ensures
            r.path@ == Seq::<char>::empty(),
            r.samples@ == Seq::<Single>::empty(),
            r.channels == 0,
            r.sample_rate == 0,
            r.source_format == SourceFormat::F32,
            r.mono_analysis@ == Seq::<Single>::empty(),
            r.offset_seconds == Double::zero(),
            !r.preserve_original_format,
    {
        AudioTrack {
            path: String::new(),
            samples: Vec::new(),
            channels: 0,
            sample_rate: 0,
            source_format: SourceFormat::F32,
            mono_analysis: Vec::new(),
            offset_seconds: Double::zero(),
            preserve_original_format: false,
        }
    }
}

impl AudioTrack {
    /// Whole frames in the track; a frame holds one sample per channel.
    pub open spec fn frames(&self) -> nat {
        if self.channels == 0 {
            0
        } else {
            self.samples@.len() / self.channels as nat
        }
    }

    /// Number of audio frames.
    pub fn frame_count(&self) -> (n: usize)
        ensures
            n == self.frames(),
    {
        if self.channels == 0 {
            return 0;
        }
        self.samples.len() / self.channels as usize
    }

    /// Length of the track in seconds.
    pub open spec fn duration(&self) -> Double {
        if self.sample_rate == 0 {
            Double::zero()
        } else {
            Double::from_u64(self.frames() as u64).over(Double::from_u64(self.sample_rate as u64))
        }
    }

    /// Length of the track in seconds.
    pub fn duration_seconds(&self) -> (r: Double)
        ensures
            r == self.duration(),
    {
        if self.sample_rate == 0 {
            return Double::zero();
        }
        Double::from_u64(self.frame_count() as u64).over(
            Double::from_u64(self.sample_rate as u64),
        )
    }

    /// Whether the track holds no audio.
    pub fn is_empty(&self) -> (b: bool)
        ensures
            b == (self.samples@.len() == 0),
    {
        self.samples.len() == 0
    }

    /// Readable summary of the format, such as `48000 Hz, 2 ch, 32-bit float`.
    pub fn format_summary(&self) -> (s: String)
        ensures
            s@ == text::decimal(self.sample_rate as nat) + " Hz, "@ + text::decimal(
                self.channels as nat,
            ) + " ch, "@ + self.source_format.label_text(),
    {
        let mut s = String::new();
        text::push_decimal(&mut s, self.sample_rate as u64);
        s.append(" Hz, ");
        text::push_decimal(&mut s, self.channels as u64);
        s.append(" ch, ");
        s.append(self.source_format.label());
        proof {
            assert(Seq::<char>::empty() + text::decimal(self.sample_rate as nat)
                =~= text::decimal(self.sample_rate as nat));
        }
        s
    }
}

} // verus!
