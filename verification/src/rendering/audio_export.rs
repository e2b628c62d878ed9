//! Encoding and muxing of the external audio track.
//!
//! The samples arrive as `f32` and are converted at most once, to the format the
//! encoder asks for. Where the encoder takes interleaved `f32` at the rate of the
//! track, nothing is converted at all. The encoder itself belongs to the caller;
//! here stands what is decided about it.

use crate::audio::waveform;
use crate::audio::AudioTrack;
use vstd::arithmetic::div_mod::*;
use vstd::prelude::*;

verus! {

/// How an encoder wants the channels laid out.
#[derive(Debug, Clone, Copy, PartialEq, Eq, Structural)]
pub enum SampleLayout {
    Packed,
    Planar,
}

/// A sample format an encoder may take.
#[derive(Debug, Clone, Copy, PartialEq, Eq, Structural)]
pub enum EncoderFormat {
    Unknown,
    U8(SampleLayout),
    I16(SampleLayout),
    I32(SampleLayout),
    I64(SampleLayout),
    F32(SampleLayout),
    F64(SampleLayout),
}

pub open spec fn is_float_format(f: EncoderFormat) -> bool {
    f is F32
}

/// This is the format to use, of those a codec takes.
pub open spec fn is_preferred(formats: Seq<EncoderFormat>, i: int) -> bool {
    &&& 0 <= i < formats.len()
    &&& if exists|j: int| 0 <= j < formats.len() && is_float_format(#[trigger] formats[j]) {
        &&& is_float_format(formats[i])
        &&& forall|j: int| 0 <= j < i ==> !is_float_format(#[trigger] formats[j])
    } else {
        i == 0
    }
}

/// Chooses among the formats a codec takes: the first `f32` one, which spares
/// float audio a conversion, else the first. `None` where there is none.
pub fn choose_format(formats: &[EncoderFormat]) -> (r: Option<EncoderFormat>)
    ensures
        r is None <==> formats@.len() == 0,
        r matches Some(f) ==> exists|i: int| is_preferred(formats@, i) && f == #[trigger] formats@[i],
{
    let mut i: usize = 0;
    while i < formats.len()
        invariant
            i <= formats@.len(),
            forall|j: int| 0 <= j < i ==> !is_float_format(#[trigger] formats@[j]),
        decreases formats@.len() - i,
    {
        match formats[i] {
            EncoderFormat::F32(layout) => {
                assert(is_float_format(formats@[i as int]));
                assert(is_preferred(formats@, i as int));
                return Some(EncoderFormat::F32(layout));
            },
            _ => {},
        }
        i = i + 1;
    }
    if formats.len() == 0 {
        None
    } else {
        assert(is_preferred(formats@, 0));
        Some(formats[0])
    }
}

/// What an opened encoder reports about itself.
#[derive(Debug, Clone, Copy, PartialEq, Eq, Structural)]
pub struct OpenedEncoder {
    pub format: EncoderFormat,
    pub rate: u32,
    /// Samples per channel in a frame; 0 where any number will do.
    pub frame_size: u32,
}

/// How a track is handed to its encoder.
#[derive(Debug, Clone, Copy, PartialEq, Eq, Structural)]
pub struct EncodingPlan {
    /// Index of the audio stream in the output file.
    pub ost_index: usize,
    /// Whether the samples have to be converted for the encoder.
    pub resample: bool,
    /// Samples per channel in each block handed over.
    pub frame_size: usize,
    pub sample_rate: u32,
    pub channels: u16,
    /// Frames handed over so far, which is the timestamp of the next block.
    pub frames_written: i64,
}

/// A run of interleaved samples for one frame of the encoder.
#[derive(Debug, Clone, Copy, PartialEq, Eq, Structural)]
pub struct Block {
    /// First sample.
    pub from: usize,
    /// Sample after the last.
    pub to: usize,
    /// Samples per channel.
    pub frames: usize,
    /// Presentation time, in frames.
    pub pts: i64,
}

/// Samples per channel in a block where the encoder does not say.
pub const DEFAULT_FRAME_SIZE: usize = 1024;

/// Channels to encode: at least one.
pub open spec fn channels_of(track: &AudioTrack) -> u16 {
    if track.channels == 0 {
        1
    } else {
        track.channels
    }
}

/// Number of channels to encode: those of the track, at least one.
pub fn channel_count(track: &AudioTrack) -> (n: u16)
    ensures
        n == channels_of(track),
{
    if track.channels == 0 {
        1
    } else {
        track.channels
    }
}

impl EncodingPlan {
    /// A plan that can cut samples into blocks.
    pub open spec fn well_formed(self) -> bool {
        self.channels > 0 && self.frame_size > 0 && self.frames_written >= 0
    }

    /// Settles how a track goes to an opened encoder.
    ///
    /// Rate and channels are those of the track: the material is kept as it was
    /// recorded. PCM takes frames of any size and reports 0; a fixed size then
    /// spares the file thousands of tiny packets.
    pub fn new(track: &AudioTrack, encoder: OpenedEncoder, ost_index: usize) -> (p: EncodingPlan)
        ensures
            p.well_formed(),
            p.ost_index == ost_index,
            p.resample == !(encoder.format == EncoderFormat::F32(SampleLayout::Packed)
                && encoder.rate == track.sample_rate),
            p.frame_size == if encoder.frame_size > 0 {
                encoder.frame_size as usize
            } else {
                DEFAULT_FRAME_SIZE
            },
            p.sample_rate == track.sample_rate,
            p.channels == channels_of(track),
            p.frames_written == 0,
    {
        let packed = match encoder.format {
            EncoderFormat::F32(SampleLayout::Packed) => true,
            _ => false,
        };
        EncodingPlan {
            ost_index,
            resample: !(packed && encoder.rate == track.sample_rate),
            frame_size: if encoder.frame_size > 0 {
                encoder.frame_size as usize
            } else {
                DEFAULT_FRAME_SIZE
            },
            sample_rate: track.sample_rate,
            channels: channel_count(track),
            frames_written: 0,
        }
    }

    /// Index of the audio stream in the output file.
    pub fn stream_index(&self) -> (i: usize)
        ensures
            i == self.ost_index,
    {
        self.ost_index
    }

    /// Whole frames in a number of samples.
    pub open spec fn frames_in(self, sample_count: nat) -> nat {
        sample_count / self.channels as nat
    }

    /// The `i`-th block of a number of samples.
    pub open spec fn block(self, sample_count: nat, i: nat) -> Block {
        let total = self.frames_in(sample_count);
        let first = i * self.frame_size as nat;
        let end = waveform::bucket_end(first, self.frame_size as nat, total);
        Block {
            from: (first * self.channels as nat) as usize,
            to: (end * self.channels as nat) as usize,
            frames: (end - first) as usize,
            pts: (self.frames_written + first) as i64,
        }
    }

    /// The blocks of a number of samples.
    pub open spec fn blocks_of(self, sample_count: nat) -> Seq<Block> {
        Seq::new(
            waveform::divided_up(self.frames_in(sample_count), self.frame_size as nat),
            |i: int| self.block(sample_count, i as nat),
        )
    }

    /// Cuts interleaved samples into the blocks the encoder is handed, in order.
    pub fn blocks(&self, sample_count: usize) -> (r: Vec<Block>)
        requires
            self.well_formed(),
            self.frames_written + self.frames_in(sample_count as nat) <= i64::MAX,
        ensures
            r@ == self.blocks_of(sample_count as nat),
    {
        let channels: usize = self.channels as usize;
        let size = self.frame_size;
        let total: usize = sample_count / channels;
        let count = waveform::divide_up(total, size);
        let ghost all = self.blocks_of(sample_count as nat);
        let mut r: Vec<Block> = Vec::new();
        proof {
            waveform::lemma_divided_up(total as nat, size as nat);
            lemma_fundamental_div_mod(sample_count as int, channels as int);
            lemma_mod_bound(sample_count as int, channels as int);
            assert(total * channels <= sample_count) by (nonlinear_arith)
                requires
                    sample_count == channels * total + sample_count as int % channels as int,
                    sample_count as int % channels as int >= 0,
            ;
            assert(all.take(0) =~= Seq::empty());
        }
        let mut i: usize = 0;
        while i < count
            invariant
                i <= count,
                self.well_formed(),
                size == self.frame_size,
                channels == self.channels,
                total == self.frames_in(sample_count as nat),
                total * channels <= sample_count,
                self.frames_written + total <= i64::MAX,
                count == waveform::divided_up(total as nat, size as nat),
                count * size < total + size,
                all == self.blocks_of(sample_count as nat),
                r@ == all.take(i as int),
            decreases count - i,
        {
            proof {
                assert(i * size <= total) by (nonlinear_arith)
                    requires
                        i + 1 <= count,
                        count * size < total + size,
                        size > 0,
                ;
            }
            let first: usize = i * size;
            let end: usize = if total - first <= size {
                total
            } else {
                first + size
            };
            proof {
                assert(first * channels <= end * channels <= total * channels) by (nonlinear_arith)
                    requires
                        first <= end <= total,
                ;
            }
            r.push(
                Block {
                    from: first * channels,
                    to: end * channels,
                    frames: end - first,
                    pts: self.frames_written + first as i64,
                },
            );
            i = i + 1;
            proof {
                assert(all.take(i as int) =~= all.take(i - 1).push(all[i - 1]));
            }
        }
        proof {
            assert(all.take(i as int) =~= all);
        }
        r
    }

    /// Takes note that a block was handed over.
    pub fn advance(&mut self, block: &Block)
        requires
            old(self).well_formed(),
            old(self).frames_written + block.frames <= i64::MAX,
        ensures
            final(self).well_formed(),
            *final(self) == (EncodingPlan {
                frames_written: (old(self).frames_written + block.frames) as i64,
                ..*old(self)
            }),
    {
        self.frames_written = self.frames_written + block.frames as i64;
    }
}

/// The blocks follow one another without a gap, in samples and in time, from
/// the first sample to the last whole frame.
pub proof fn law_blocks_are_seamless(plan: EncodingPlan, sample_count: nat, i: int)
    requires
        plan.well_formed(),
        sample_count <= usize::MAX,
        plan.frames_written + plan.frames_in(sample_count) <= i64::MAX,
        0 <= i < plan.blocks_of(sample_count).len(),
    ensures
        ({
            let blocks = plan.blocks_of(sample_count);
            let b = blocks[i];
            &&& 0 < b.frames <= plan.frame_size
            &&& b.to - b.from == b.frames * plan.channels
            &&& i == 0 ==> b.from == 0 && b.pts == plan.frames_written
            &&& i + 1 < blocks.len() ==> {
                &&& blocks[i + 1].from == b.to
                &&& blocks[i + 1].pts == b.pts + b.frames
            }
            &&& i + 1 == blocks.len() ==> b.to == plan.frames_in(sample_count) * plan.channels
        }),
{
    let total = plan.frames_in(sample_count);
    let size = plan.frame_size as nat;
    let ch = plan.channels as nat;
    let count = waveform::divided_up(total, size);
    let first = i as nat * size;
    let end = waveform::bucket_end(first, size, total);
    waveform::lemma_divided_up(total, size);
    lemma_fundamental_div_mod(sample_count as int, ch as int);
    lemma_mod_bound(sample_count as int, ch as int);
    assert(first < total) by (nonlinear_arith)
        requires
            i + 1 <= count,
            count * size < total + size,
            first == i * size,
            size > 0,
    ;
    assert(total * ch <= sample_count) by (nonlinear_arith)
        requires
            sample_count == ch * total + sample_count as int % ch as int,
            sample_count as int % ch as int >= 0,
    ;
    assert(first * ch <= end * ch <= total * ch) by (nonlinear_arith)
        requires
            first <= end <= total,
    ;
    assert(end * ch - first * ch == (end - first) * ch) by (nonlinear_arith);
    assert(i == 0 ==> first == 0) by (nonlinear_arith)
        requires
            first == i * size,
    ;
    assert(0 * ch == 0);
    if i + 1 < count {
        assert((i + 1) * size == first + size) by (nonlinear_arith)
            requires
                first == i * size,
        ;
        assert((i + 1) * size < total) by (nonlinear_arith)
            requires
                i + 2 <= count,
                count * size < total + size,
                size > 0,
        ;
        assert(end == (i + 1) as nat * size);
    } else {
        assert(total <= first + size) by (nonlinear_arith)
            requires
                total <= count * size,
                count == i + 1,
                first == i * size,
        ;
    }
}

} // verus!
