//! Movie files: boxes that hold fields or other boxes.
//!
//! The reader follows the boxes it knows, one after the other, and passes over the
//! rest. It does not survive a place that runs over 64 bits, a box shorter than
//! the fields it is taken to hold, or a table whose sums run over.

use crate::audio::container::bytes::{
    be16, be32, be64, read_be16, read_be32, read_be64, Course, Step,
};
use crate::audio::container::descriptor::{esds_course, test_esds};
use vstd::prelude::*;

verus! {

/// Names of boxes, as the number in their four bytes.
pub const FTYP: u64 = 0x6674_7970;

pub const MOOV: u64 = 0x6d6f_6f76;

pub const SIDX: u64 = 0x7369_6478;

pub const META: u64 = 0x6d65_7461;

pub const TRAK: u64 = 0x7472_616b;

pub const UDTA: u64 = 0x7564_7461;

pub const MVEX: u64 = 0x6d76_6578;

pub const EDTS: u64 = 0x6564_7473;

pub const MDIA: u64 = 0x6d64_6961;

pub const MDHD: u64 = 0x6d64_6864;

pub const HDLR: u64 = 0x6864_6c72;

pub const MINF: u64 = 0x6d69_6e66;

pub const STBL: u64 = 0x7374_626c;

pub const STSD: u64 = 0x7374_7364;

pub const STTS: u64 = 0x7374_7473;

pub const STSC: u64 = 0x7374_7363;

pub const STSZ: u64 = 0x7374_737a;

pub const STCO: u64 = 0x7374_636f;

pub const CO64: u64 = 0x636f_3634;

pub const ESDS: u64 = 0x6573_6473;

pub const WAVE: u64 = 0x7761_7665;

pub const ILST: u64 = 0x696c_7374;

pub const DATA: u64 = 0x6461_7461;

pub const NAME: u64 = 0x6e61_6d65;

pub const MEAN: u64 = 0x6d65_616e;

pub const LPCM: u64 = 0x6c70_636d;

pub const MP4A: u64 = 0x6d70_3461;

pub const ALAC: u64 = 0x616c_6163;

pub const FLAC: u64 = 0x664c_6143;

pub const OPUS: u64 = 0x4f70_7573;

pub const MP3: u64 = 0x2e6d_7033;

pub const ALAW: u64 = 0x616c_6177;

pub const ULAW: u64 = 0x756c_6177;

pub const RAW: u64 = 0x7261_7720;

pub const SOWT: u64 = 0x736f_7774;

pub const TWOS: u64 = 0x7477_6f73;

pub const IN24: u64 = 0x696e_3234;

pub const IN32: u64 = 0x696e_3332;

pub const FL32: u64 = 0x666c_3332;

pub const FL64: u64 = 0x666c_3634;

/// What boxes stand in, which decides how they are read.
#[derive(Debug, Clone, Copy, PartialEq, Eq, Structural)]
pub enum Nest {
    File,
    Movie,
    Extends,
    Track,
    Edits,
    Media,
    MediaInfo,
    Samples,
    Entry,
    Wave,
    UserData,
    Meta,
    Items,
    Item,
}

/// An item of this name is read; others are passed over.
pub open spec fn is_item_read(tag: int) -> bool {
    ||| tag == 0x6141_5254 || tag == 0xa961_6c62 || tag == 0xa941_5254 || tag == 0x6361_7467
    ||| tag == 0xa963_6d74 || tag == 0x6370_696c || tag == 0xa977_7274 || tag == 0x6370_7274
    ||| tag == 0x636f_7672 || tag == 0xa967_656e || tag == 0xa964_6179 || tag == 0x6465_7363
    ||| tag == 0x6469_736b || tag == 0xa965_6e63 || tag == 0xa974_6f6f || tag == 0x676e_7265
    ||| tag == 0xa967_7270 || tag == 0x6567_6964 || tag == 0x6b65_7977 || tag == 0x6c64_6573
    ||| tag == 0xa96c_7972 || tag == 0x7374_696b || tag == 0x6f77_6e72 || tag == 0x7063_7374
    ||| tag == 0x7075_7264 || tag == 0x7261_7465 || tag == 0x736f_6161 || tag == 0x736f_616c
    ||| tag == 0x736f_6172 || tag == 0x736f_636f || tag == 0x736f_6e6d || tag == 0x746d_706f
    ||| tag == 0x7472_6b6e || tag == 0xa96e_616d || tag == 0x7476_656e || tag == 0x7476_6573
    ||| tag == 0x7476_6e6e || tag == 0x7476_736e || tag == 0x7476_7368 || tag == 0x7075_726c
    ||| tag == 0x2d2d_2d2d
}

fn test_item_read(tag: u64) -> (r: bool)
    ensures
        r == is_item_read(tag as int),
{
    tag == 0x6141_5254 || tag == 0xa961_6c62 || tag == 0xa941_5254 || tag == 0x6361_7467 || tag == 0xa963_6d74 || tag == 0x6370_696c || tag == 0xa977_7274 || tag == 0x6370_7274 || tag == 0x636f_7672 || tag == 0xa967_656e || tag == 0xa964_6179 || tag == 0x6465_7363 || tag == 0x6469_736b || tag == 0xa965_6e63 || tag == 0xa974_6f6f || tag == 0x676e_7265 || tag == 0xa967_7270 || tag == 0x6567_6964 || tag == 0x6b65_7977 || tag == 0x6c64_6573 || tag == 0xa96c_7972 || tag == 0x7374_696b || tag == 0x6f77_6e72 || tag == 0x7063_7374 || tag == 0x7075_7264 || tag == 0x7261_7465 || tag == 0x736f_6161 || tag == 0x736f_616c || tag == 0x736f_6172 || tag == 0x736f_636f || tag == 0x736f_6e6d || tag == 0x746d_706f || tag == 0x7472_6b6e || tag == 0xa96e_616d || tag == 0x7476_656e || tag == 0x7476_6573 || tag == 0x7476_6e6e || tag == 0x7476_736e || tag == 0x7476_7368 || tag == 0x7075_726c || tag == 0x2d2d_2d2d
}

/// A sample entry of this name describes audio.
pub open spec fn is_audio_entry(tag: int) -> bool {
    ||| tag == MP4A || tag == ALAC || tag == FLAC || tag == OPUS
    ||| tag == MP3 || tag == LPCM || tag == WAVE || tag == ALAW
    ||| tag == ULAW || tag == RAW || tag == SOWT || tag == TWOS
    ||| tag == IN24 || tag == IN32 || tag == FL32 || tag == FL64
}

fn test_audio_entry(tag: u64) -> (r: bool)
    ensures
        r == is_audio_entry(tag as int),
{
    tag == MP4A || tag == ALAC || tag == FLAC || tag == OPUS || tag == MP3 || tag == LPCM || tag
        == WAVE || tag == ALAW || tag == ULAW || tag == RAW || tag == SOWT || tag == TWOS || tag
        == IN24 || tag == IN32 || tag == FL32 || tag == FL64
}

/// The head of a box at `at`: its name, how long its head is, and its length with
/// the head; 0 where it reaches to the end of what it stands in.
pub open spec fn head_at(b: Seq<u8>, at: int) -> Option<(int, int, int)> {
    let short = be32(b, at);
    if at + 8 > b.len() {
        None
    } else if short == 1 {
        if at + 16 > b.len() || be64(b, at + 8) < 16 {
            None
        } else {
            Some((be32(b, at + 4), 16, be64(b, at + 8)))
        }
    } else if short == 0 || short >= 8 {
        Some((be32(b, at + 4), 8, short))
    } else {
        None
    }
}

fn read_head(b: &Vec<u8>, at: usize) -> (r: Option<(u64, usize, u64)>)
    requires
        at <= b.len(),
    ensures
        match r {
            None => head_at(b@, at as int) is None,
            Some(h) => {
                &&& head_at(b@, at as int) == Some((h.0 as int, h.1 as int, h.2 as int))
                &&& at + h.1 <= b.len()
                &&& h.1 == 8 || h.1 == 16
                &&& h.2 == 0 || h.2 >= h.1
            },
        },
{
    let room: usize = b.len() - at;
    if room < 8 {
        return None;
    }
    let short = read_be32(b, at);
    let tag = read_be32(b, at + 4);
    if short == 1 {
        if room < 16 {
            return None;
        }
        let size = read_be64(b, at + 8);
        if size < 16 {
            return None;
        }
        return Some((tag, 16, size));
    }
    if short == 0 || short >= 8 {
        return Some((tag, 8, short));
    }
    None
}

/// What is left of a box behind its head.
pub open spec fn body(h: (int, int, int)) -> int {
    if h.2 == 0 {
        0
    } else {
        h.2 - h.1
    }
}

/// Fields of which the first `fixed` bytes are read, and then all the rest of the
/// `len` bytes at `s`.
pub open spec fn text_course(b: Seq<u8>, s: int, len: int, fixed: int) -> Course {
    if s + fixed > b.len() {
        Course::Refused
    } else if len < fixed {
        Course::Lost
    } else if s + len > b.len() {
        Course::Cut
    } else {
        Course::On(s + len, false)
    }
}

fn test_text(b: &Vec<u8>, s: usize, len: u64, fixed: usize) -> (r: Step)
    requires
        s <= b.len(),
    ensures
        r.course() == text_course(b@, s as int, len as int, fixed as int),
        r matches Step::On(p, _) ==> s <= p <= b.len(),
{
    let room: usize = b.len() - s;
    if room < fixed {
        Step::Refused
    } else if len < fixed as u64 {
        Step::Lost
    } else if len > room as u64 {
        Step::Cut
    } else {
        Step::On(s + len as usize, false)
    }
}

/// The header of a medium, with its time scale.
pub open spec fn mdhd_course(b: Seq<u8>, s: int) -> Course {
    if s + 4 > b.len() {
        Course::Refused
    } else if b[s] == 0 && s + 24 <= b.len() {
        Course::On(s + 24, be32(b, s + 12) == 0)
    } else if b[s] == 1 && s + 36 <= b.len() {
        Course::On(s + 36, be32(b, s + 20) == 0)
    } else {
        Course::Refused
    }
}

fn test_mdhd(b: &Vec<u8>, s: usize) -> (r: Step)
    requires
        s <= b.len(),
    ensures
        r.course() == mdhd_course(b@, s as int),
        r matches Step::On(p, _) ==> s <= p <= b.len(),
{
    let room: usize = b.len() - s;
    if room < 4 {
        Step::Refused
    } else if b[s] == 0 && room >= 24 {
        Step::On(s + 24, read_be32(b, s + 12) == 0)
    } else if b[s] == 1 && room >= 36 {
        Step::On(s + 36, read_be32(b, s + 20) == 0)
    } else {
        Step::Refused
    }
}

/// The index of segments: the first offset counts from the end of its box.
pub open spec fn sidx_course(b: Seq<u8>, s: int, len: int) -> Course {
    if s + 4 > b.len() {
        Course::Refused
    } else if b[s] == 0 && s + 20 <= b.len() {
        if s + len + be32(b, s + 16) > u64::MAX {
            Course::Lost
        } else {
            Course::On(s + 20, false)
        }
    } else if b[s] == 1 && s + 28 <= b.len() {
        if s + len + be64(b, s + 20) > u64::MAX {
            Course::Lost
        } else {
            Course::On(s + 28, false)
        }
    } else {
        Course::Refused
    }
}

fn test_sidx(b: &Vec<u8>, s: usize, len: u64) -> (r: Step)
    requires
        s <= b.len(),
    ensures
        r.course() == sidx_course(b@, s as int, len as int),
        r matches Step::On(p, _) ==> s <= p <= b.len(),
{
    let room: usize = b.len() - s;
    if room < 4 {
        return Step::Refused;
    }
    let anchor: u128 = s as u128 + len as u128;
    if b[s] == 0 && room >= 20 {
        if anchor + read_be32(b, s + 16) as u128 > u64::MAX as u128 {
            Step::Lost
        } else {
            Step::On(s + 20, false)
        }
    } else if b[s] == 1 && room >= 28 {
        if anchor + read_be64(b, s + 20) as u128 > u64::MAX as u128 {
            Step::Lost
        } else {
            Step::On(s + 28, false)
        }
    } else {
        Step::Refused
    }
}

/// A table of `count` entries of `width` bytes at `p`.
pub open spec fn table_course(b: Seq<u8>, p: int, count: int, width: int) -> Course {
    if p + count * width > b.len() {
        Course::Cut
    } else {
        Course::On(p + count * width, false)
    }
}

fn test_table(b: &Vec<u8>, p: usize, count: u64, width: u64) -> (r: Step)
    requires
        p <= b.len(),
        count < 0x1_0000_0000,
        1 <= width <= 12,
    ensures
        r.course() == table_course(b@, p as int, count as int, width as int),
        r matches Step::On(q, _) ==> p <= q <= b.len() && q == p + count * width,
{
    assert(count * width <= 0x1_0000_0000 * 12 && count * width >= 0) by (nonlinear_arith)
        requires
            0 <= count < 0x1_0000_0000,
            1 <= width <= 12,
    ;
    let size: u64 = count * width;
    if size > (b.len() - p) as u64 {
        Step::Cut
    } else {
        Step::On(p + size as usize, false)
    }
}

/// How long `count` runs of samples at `p` last together: a run is a number of
/// samples and how long each lasts.
pub open spec fn duration(b: Seq<u8>, p: int, count: int) -> int
    decreases count,
{
    if count <= 0 {
        0
    } else {
        duration(b, p, count - 1) + be32(b, p + 8 * (count - 1)) * be32(b, p + 8 * (count - 1) + 4)
    }
}

proof fn lemma_duration_grows(b: Seq<u8>, p: int, i: int, count: int)
    requires
        i <= count,
    ensures
        duration(b, p, i) <= duration(b, p, count),
    decreases count - i,
{
    if i < count {
        lemma_duration_grows(b, p, i, count - 1);
        if count > 0 {
            let x = be32(b, p + 8 * (count - 1));
            let y = be32(b, p + 8 * (count - 1) + 4);
            assert(x * y >= 0) by (nonlinear_arith)
                requires
                    x >= 0,
                    y >= 0,
            ;
        }
    }
}

/// The table of durations. Their sum is kept in 64 bits.
pub open spec fn stts_course(b: Seq<u8>, s: int) -> Course {
    let count = be32(b, s + 4);
    if s + 8 > b.len() {
        Course::Refused
    } else {
        match table_course(b, s + 8, count, 8) {
            Course::On(q, _) => if duration(b, s + 8, count) > u64::MAX {
                Course::Lost
            } else {
                Course::On(q, false)
            },
            other => other,
        }
    }
}

fn test_stts(b: &Vec<u8>, s: usize) -> (r: Step)
    requires
        s <= b.len(),
    ensures
        r.course() == stts_course(b@, s as int),
        r matches Step::On(q, _) ==> s <= q <= b.len(),
{
    if b.len() - s < 8 {
        return Step::Refused;
    }
    let count = read_be32(b, s + 4);
    let step = test_table(b, s + 8, count, 8);
    match step {
        Step::On(_, _) => {
            let mut i: u64 = 0;
            let mut at: usize = s + 8;
            let mut total: u128 = 0;
            while i < count
                invariant
                    i <= count < 0x1_0000_0000,
                    count == be32(b@, s + 4),
                    at == s + 8 + 8 * i,
                    s + 8 + count * 8 <= b@.len() <= usize::MAX,
                    total == duration(b@, s + 8, i as int),
                    total <= u64::MAX,
                decreases count - i,
            {
                let x: u64 = read_be32(b, at);
                let y: u64 = read_be32(b, at + 4);
                assert(x * y <= 0xffff_ffff * 0xffff_ffff && x * y >= 0) by (nonlinear_arith)
                    requires
                        0 <= x <= 0xffff_ffff,
                        0 <= y <= 0xffff_ffff,
                ;
                total = total + (x * y) as u128;
                assert(total == duration(b@, s + 8, i + 1));
                if total > u64::MAX as u128 {
                    proof {
                        lemma_duration_grows(b@, s + 8, i + 1, count as int);
                    }
                    assert(duration(b@, s + 8, count as int) > u64::MAX);
                    return Step::Lost;
                }
                i = i + 1;
                at = at + 8;
            }
            step
        },
        other => other,
    }
}

/// First chunk of the `i`-th run of chunks, and the number of samples in each; the
/// runs start at `p`.
pub open spec fn first_chunk(b: Seq<u8>, p: int, i: int) -> int {
    be32(b, p + 12 * i)
}

pub open spec fn per_chunk(b: Seq<u8>, p: int, i: int) -> int {
    be32(b, p + 12 * i + 4)
}

/// Runs of chunks from the `i`-th on, before which `samples` samples stand. That
/// number is kept in 32 bits.
pub open spec fn runs_course(b: Seq<u8>, p: int, i: int, count: int, samples: int) -> Course
    decreases count - i,
{
    if i >= count {
        Course::On(p + count * 12, false)
    } else if i + 1 < count && first_chunk(b, p, i + 1) < first_chunk(b, p, i) {
        Course::Refused
    } else if per_chunk(b, p, i) == 0 {
        Course::Refused
    } else if i + 1 == count {
        Course::On(p + count * 12, false)
    } else {
        let more = (first_chunk(b, p, i + 1) - first_chunk(b, p, i)) * per_chunk(b, p, i);
        if samples + more > u32::MAX {
            Course::Lost
        } else {
            runs_course(b, p, i + 1, count, samples + more)
        }
    }
}

/// The table of chunks, which are numbered from 1.
pub open spec fn stsc_course(b: Seq<u8>, s: int) -> Course {
    let count = be32(b, s + 4);
    if s + 8 > b.len() {
        Course::Refused
    } else {
        match table_course(b, s + 8, count, 12) {
            Course::On(_, _) => if exists|i: int|
                0 <= i < count && #[trigger] first_chunk(b, s + 8, i) == 0 {
                Course::Lost
            } else {
                runs_course(b, s + 8, 0, count, 0)
            },
            other => other,
        }
    }
}

fn test_stsc(b: &Vec<u8>, s: usize) -> (r: Step)
    requires
        s <= b.len(),
    ensures
        r.course() == stsc_course(b@, s as int),
        r matches Step::On(q, _) ==> s <= q <= b.len(),
{
    if b.len() - s < 8 {
        return Step::Refused;
    }
    let count = read_be32(b, s + 4);
    let p: usize = s + 8;
    let step = test_table(b, p, count, 12);
    match step {
        Step::On(_, _) => {},
        other => {
            return other;
        },
    }
    let mut i: u64 = 0;
    let mut at: usize = p;
    while i < count
        invariant
            i <= count < 0x1_0000_0000,
            count == be32(b@, s + 4),
            p == s + 8,
            at == p + 12 * i,
            p + count * 12 <= b@.len() <= usize::MAX,
            forall|j: int| 0 <= j < i ==> #[trigger] first_chunk(b@, p as int, j) != 0,
        decreases count - i,
    {
        if read_be32(b, at) == 0 {
            assert(first_chunk(b@, p as int, i as int) == 0);
            assert(exists|j: int|
                0 <= j < count && #[trigger] first_chunk(b@, p as int, j) == 0);
            return Step::Lost;
        }
        i = i + 1;
        at = at + 12;
    }
    let end: usize = at;
    at = p;
    let mut k: u64 = 0;
    let mut samples: u64 = 0;
    assert(!exists|j: int| 0 <= j < count && #[trigger] first_chunk(b@, p as int, j) == 0);
    while k < count
        invariant
            k <= count < 0x1_0000_0000,
            p == s + 8,
            at == p + 12 * k,
            end == p + 12 * count,
            end <= b@.len() <= usize::MAX,
            samples <= u32::MAX,
            stsc_course(b@, s as int) == runs_course(
                b@,
                p as int,
                k as int,
                count as int,
                samples as int,
            ),
        decreases count - k,
    {
        let last = k + 1 == count;
        let here = read_be32(b, at);
        let next = if last {
            here
        } else {
            read_be32(b, at + 12)
        };
        let each = read_be32(b, at + 4);
        assert(first_chunk(b@, p as int, k as int) == here);
        assert(per_chunk(b@, p as int, k as int) == each);
        assert(!last ==> first_chunk(b@, p as int, k + 1) == next);
        if next < here || each == 0 {
            return Step::Refused;
        }
        if last {
            return Step::On(end, false);
        }
        let n: u64 = next - here;
        assert(n * each <= 0xffff_ffff * 0xffff_ffff && n * each >= 0) by (nonlinear_arith)
            requires
                0 <= n <= 0xffff_ffff,
                0 <= each <= 0xffff_ffff,
        ;
        let more: u128 = (n * each) as u128;
        if samples as u128 + more > u32::MAX as u128 {
            return Step::Lost;
        }
        samples = samples + more as u64;
        k = k + 1;
        at = at + 12;
    }
    Step::On(end, false)
}

/// The table of sample sizes; it is there where the samples have no common size.
pub open spec fn stsz_course(b: Seq<u8>, s: int) -> Course {
    if s + 12 > b.len() {
        Course::Refused
    } else if be32(b, s + 4) != 0 {
        Course::On(s + 12, false)
    } else {
        table_course(b, s + 12, be32(b, s + 8), 4)
    }
}

fn test_stsz(b: &Vec<u8>, s: usize) -> (r: Step)
    requires
        s <= b.len(),
    ensures
        r.course() == stsz_course(b@, s as int),
        r matches Step::On(q, _) ==> s <= q <= b.len(),
{
    if b.len() - s < 12 {
        Step::Refused
    } else if read_be32(b, s + 4) != 0 {
        Step::On(s + 12, false)
    } else {
        test_table(b, s + 12, read_be32(b, s + 8), 4)
    }
}

/// The table of chunk offsets, of `width` bytes each.
pub open spec fn offsets_course(b: Seq<u8>, s: int, width: int) -> Course {
    if s + 8 > b.len() {
        Course::Refused
    } else {
        table_course(b, s + 8, be32(b, s + 4), width)
    }
}

fn test_offsets(b: &Vec<u8>, s: usize, width: u64) -> (r: Step)
    requires
        s <= b.len(),
        1 <= width <= 12,
    ensures
        r.course() == offsets_course(b@, s as int, width as int),
        r matches Step::On(q, _) ==> s <= q <= b.len(),
{
    if b.len() - s < 8 {
        Step::Refused
    } else {
        test_table(b, s + 8, read_be32(b, s + 4), width)
    }
}

/// How many bytes the fields of an audio sample entry take, by its version: they
/// start at `h`. Linear PCM is only known to version 2.
pub open spec fn entry_course(b: Seq<u8>, h: int, tag: int) -> Course {
    let version = be16(b, h + 8);
    if h + 28 > b.len() {
        Course::Refused
    } else if version == 0 || version == 1 {
        let k = if version == 0 {
            28int
        } else {
            44
        };
        if h + k > b.len() {
            Course::Refused
        } else if tag == LPCM {
            Course::Lost
        } else {
            Course::On(h + k, false)
        }
    } else if version == 2 && h + 64 <= b.len() && be32(b, h + 44) == 0x7f00_0000 {
        Course::On(h + 64, false)
    } else {
        Course::Refused
    }
}

fn test_entry(b: &Vec<u8>, h: usize, tag: u64) -> (r: Step)
    requires
        h <= b.len(),
    ensures
        r.course() == entry_course(b@, h as int, tag as int),
        r matches Step::On(q, _) ==> h < q <= b.len(),
{
    let room: usize = b.len() - h;
    if room < 28 {
        return Step::Refused;
    }
    let version = read_be16(b, h + 8);
    if version == 0 || version == 1 {
        let k: usize = if version == 0 {
            28
        } else {
            44
        };
        if room < k {
            Step::Refused
        } else if tag == LPCM {
            Step::Lost
        } else {
            Step::On(h + k, false)
        }
    } else if version == 2 && room >= 64 && read_be32(b, h + 44) == 0x7f00_0000 {
        Step::On(h + 64, false)
    } else {
        Step::Refused
    }
}

/// The sample description at `s`: one entry, and if it describes audio, the boxes
/// behind its fields.
pub open spec fn description_course(b: Seq<u8>, s: int) -> Course
    decreases b.len() - s, 2int,
{
    if s < 0 || s + 8 > b.len() || be32(b, s + 4) != 1 {
        Course::Refused
    } else {
        match head_at(b, s + 8) {
            None => Course::Refused,
            Some(h) => {
                let start = s + 8 + h.1;
                if !is_audio_entry(h.0) {
                    Course::On(start, false)
                } else {
                    match entry_course(b, start, h.0) {
                        Course::On(q, _) => if q - start > body(h) {
                            Course::Lost
                        } else if q <= s || q > b.len() {
                            Course::Refused
                        } else {
                            boxes_course(b, Nest::Entry, q, start + body(h), false)
                        },
                        other => other,
                    }
                }
            },
        }
    }
}

/// A box of name `tag` with `len` bytes at `s`.
pub open spec fn box_course(b: Seq<u8>, nest: Nest, tag: int, s: int, len: int) -> Course
    decreases b.len() - s, 3int,
{
    if s < 0 || s > b.len() {
        Course::Refused
    } else {
        match inside(nest, tag) {
            Some(inner) => boxes_course(b, inner, s, s + len, false),
            None => if tag == META && (nest is File || nest is UserData) {
                if s + 4 > b.len() {
                    Course::Refused
                } else if len < 4 {
                    Course::Lost
                } else {
                    boxes_course(b, Nest::Meta, s + 4, s + len, false)
                }
            } else if nest is Samples && tag == STSD {
                description_course(b, s)
            } else {
                fields_course(b, nest, tag, s, len)
            },
        }
    }
}

/// What the boxes stand in that a box holds and nothing else.
pub open spec fn inside(nest: Nest, tag: int) -> Option<Nest> {
    match nest {
        Nest::File => if tag == MOOV {
            Some(Nest::Movie)
        } else {
            None
        },
        Nest::Movie => if tag == TRAK {
            Some(Nest::Track)
        } else if tag == MVEX {
            Some(Nest::Extends)
        } else if tag == UDTA {
            Some(Nest::UserData)
        } else {
            None
        },
        Nest::Track => if tag == EDTS {
            Some(Nest::Edits)
        } else if tag == MDIA {
            Some(Nest::Media)
        } else {
            None
        },
        Nest::Media => if tag == MINF {
            Some(Nest::MediaInfo)
        } else {
            None
        },
        Nest::MediaInfo => if tag == STBL {
            Some(Nest::Samples)
        } else {
            None
        },
        Nest::Entry => if tag == WAVE {
            Some(Nest::Wave)
        } else {
            None
        },
        Nest::Meta => if tag == ILST {
            Some(Nest::Items)
        } else {
            None
        },
        Nest::Items => if is_item_read(tag) {
            Some(Nest::Item)
        } else {
            None
        },
        _ => None,
    }
}

fn find_inside(nest: Nest, tag: u64) -> (r: Option<Nest>)
    ensures
        r == inside(nest, tag as int),
{
    match nest {
        Nest::File => if tag == MOOV {
            Some(Nest::Movie)
        } else {
            None
        },
        Nest::Movie => if tag == TRAK {
            Some(Nest::Track)
        } else if tag == MVEX {
            Some(Nest::Extends)
        } else if tag == UDTA {
            Some(Nest::UserData)
        } else {
            None
        },
        Nest::Track => if tag == EDTS {
            Some(Nest::Edits)
        } else if tag == MDIA {
            Some(Nest::Media)
        } else {
            None
        },
        Nest::Media => if tag == MINF {
            Some(Nest::MediaInfo)
        } else {
            None
        },
        Nest::MediaInfo => if tag == STBL {
            Some(Nest::Samples)
        } else {
            None
        },
        Nest::Entry => if tag == WAVE {
            Some(Nest::Wave)
        } else {
            None
        },
        Nest::Meta => if tag == ILST {
            Some(Nest::Items)
        } else {
            None
        },
        Nest::Items => if test_item_read(tag) {
            Some(Nest::Item)
        } else {
            None
        },
        _ => None,
    }
}

/// A box that holds no boxes: its fields, `len` bytes at `s`. One whose fields are
/// always survived counts as passed over.
pub open spec fn fields_course(b: Seq<u8>, nest: Nest, tag: int, s: int, len: int) -> Course {
    match nest {
        Nest::File => if tag == FTYP {
            if len < 8 || len % 4 != 0 || s + len > b.len() {
                Course::Refused
            } else {
                Course::On(s + len, false)
            }
        } else if tag == SIDX {
            sidx_course(b, s, len)
        } else {
            Course::On(s, false)
        },
        Nest::Media => if tag == MDHD {
            mdhd_course(b, s)
        } else if tag == HDLR {
            text_course(b, s, len, 24)
        } else {
            Course::On(s, false)
        },
        Nest::Samples => if tag == STTS {
            stts_course(b, s)
        } else if tag == STSC {
            stsc_course(b, s)
        } else if tag == STSZ {
            stsz_course(b, s)
        } else if tag == STCO {
            offsets_course(b, s, 4)
        } else if tag == CO64 {
            offsets_course(b, s, 8)
        } else {
            Course::On(s, false)
        },
        Nest::Entry | Nest::Wave => if tag == ESDS {
            esds_course(b, s, len)
        } else {
            Course::On(s, false)
        },
        Nest::Item => if tag == DATA {
            if s + 4 > b.len() || b[s] != 0 {
                Course::Refused
            } else {
                text_course(b, s, len, 8)
            }
        } else if tag == NAME || tag == MEAN {
            text_course(b, s, len, 4)
        } else {
            Course::On(s, false)
        },
        _ => Course::On(s, false),
    }
}

fn test_fields(b: &Vec<u8>, nest: Nest, tag: u64, s: usize, len: u64) -> (r: Step)
    requires
        s <= b.len(),
    ensures
        r.course() == fields_course(b@, nest, tag as int, s as int, len as int),
        r matches Step::On(q, _) ==> s <= q <= b.len(),
{
    match nest {
        Nest::File => if tag == FTYP {
            if len < 8 || len % 4 != 0 || len > (b.len() - s) as u64 {
                Step::Refused
            } else {
                Step::On(s + len as usize, false)
            }
        } else if tag == SIDX {
            test_sidx(b, s, len)
        } else {
            Step::On(s, false)
        },
        Nest::Media => if tag == MDHD {
            test_mdhd(b, s)
        } else if tag == HDLR {
            test_text(b, s, len, 24)
        } else {
            Step::On(s, false)
        },
        Nest::Samples => if tag == STTS {
            test_stts(b, s)
        } else if tag == STSC {
            test_stsc(b, s)
        } else if tag == STSZ {
            test_stsz(b, s)
        } else if tag == STCO {
            test_offsets(b, s, 4)
        } else if tag == CO64 {
            test_offsets(b, s, 8)
        } else {
            Step::On(s, false)
        },
        Nest::Entry | Nest::Wave => if tag == ESDS {
            test_esds(b, s, len)
        } else {
            Step::On(s, false)
        },
        Nest::Item => if tag == DATA {
            if b.len() - s < 4 || b[s] != 0 {
                Step::Refused
            } else {
                test_text(b, s, len, 8)
            }
        } else if tag == NAME || tag == MEAN {
            test_text(b, s, len, 4)
        } else {
            Step::On(s, false)
        },
        _ => Step::On(s, false),
    }
}

/// Whether a time scale is 0 after a box was read: the last header of a medium
/// counts, the last medium of a track, any track, and the last movie.
pub open spec fn merged(nest: Nest, tag: int, before: bool, inner: bool) -> bool {
    if (nest is Media && tag == MDHD) || (nest is Track && tag == MDIA) || (nest is File && tag
        == MOOV) {
        inner
    } else if nest is Movie && tag == TRAK {
        before || inner
    } else {
        before
    }
}

fn merge(nest: Nest, tag: u64, before: bool, inner: bool) -> (r: bool)
    ensures
        r == merged(nest, tag as int, before, inner),
{
    match nest {
        Nest::Media => if tag == MDHD {
            inner
        } else {
            before
        },
        Nest::Track => if tag == MDIA {
            inner
        } else {
            before
        },
        Nest::File => if tag == MOOV {
            inner
        } else {
            before
        },
        Nest::Movie => if tag == TRAK {
            before || inner
        } else {
            before
        },
        _ => before,
    }
}

/// The boxes from `at` on, up to `end`.
pub open spec fn boxes_course(b: Seq<u8>, nest: Nest, at: int, end: int, timeless: bool) -> Course
    decreases b.len() - at, 1int,
{
    if at >= end {
        Course::On(at, timeless)
    } else if at < 0 || at > b.len() {
        Course::Refused
    } else {
        match head_at(b, at) {
            None => Course::Refused,
            Some(h) => {
                let next = if h.2 == 0 {
                    end
                } else {
                    at + h.2
                };
                let s = at + h.1;
                if next > u64::MAX {
                    Course::Lost
                } else if s <= at || s > b.len() {
                    Course::Refused
                } else {
                    match box_course(b, nest, h.0, s, body(h)) {
                        Course::On(q, t) => if q > next || next > b.len() || next <= at {
                            Course::Refused
                        } else {
                            boxes_course(b, nest, next, end, merged(nest, h.0, timeless, t))
                        },
                        other => other,
                    }
                }
            },
        }
    }
}

fn test_description(b: &Vec<u8>, s: usize) -> (r: Step)
    requires
        s <= b.len(),
    ensures
        r.course() == description_course(b@, s as int),
        r matches Step::On(q, _) ==> s <= q <= b.len(),
    decreases b.len() - s, 2int,
{
    if b.len() - s < 8 || read_be32(b, s + 4) != 1 {
        return Step::Refused;
    }
    match read_head(b, s + 8) {
        None => Step::Refused,
        Some(h) => {
            let start: usize = s + 8 + h.1;
            if !test_audio_entry(h.0) {
                return Step::On(start, false);
            }
            let len: u64 = if h.2 == 0 {
                0
            } else {
                h.2 - h.1 as u64
            };
            match test_entry(b, start, h.0) {
                Step::On(q, _) => if (q - start) as u64 > len {
                    Step::Lost
                } else {
                    test_boxes(b, Nest::Entry, q, start as u128 + len as u128)
                },
                other => other,
            }
        },
    }
}

fn test_box(b: &Vec<u8>, nest: Nest, tag: u64, s: usize, len: u64) -> (r: Step)
    requires
        s <= b.len(),
    ensures
        r.course() == box_course(b@, nest, tag as int, s as int, len as int),
        r matches Step::On(q, _) ==> s <= q <= b.len(),
    decreases b.len() - s, 3int,
{
    match find_inside(nest, tag) {
        Some(inner) => {
            return test_boxes(b, inner, s, s as u128 + len as u128);
        },
        None => {},
    }
    let outer = match nest {
        Nest::File => true,
        Nest::UserData => true,
        _ => false,
    };
    if tag == META && outer {
        if b.len() - s < 4 {
            return Step::Refused;
        }
        if len < 4 {
            return Step::Lost;
        }
        return test_boxes(b, Nest::Meta, s + 4, s as u128 + len as u128);
    }
    let samples = match nest {
        Nest::Samples => true,
        _ => false,
    };
    if samples && tag == STSD {
        return test_description(b, s);
    }
    test_fields(b, nest, tag, s, len)
}

/// [`boxes_course`], computed.
pub fn test_boxes(b: &Vec<u8>, nest: Nest, start: usize, end: u128) -> (r: Step)
    requires
        start <= b.len(),
        start <= end,
    ensures
        r.course() == boxes_course(b@, nest, start as int, end as int, false),
        r matches Step::On(q, _) ==> start <= q <= b.len(),
    decreases b.len() - start, 1int,
{
    let mut at: usize = start;
    let mut timeless: bool = false;
    while (at as u128) < end
        invariant
            start <= at <= b@.len(),
            at <= end,
            boxes_course(b@, nest, start as int, end as int, false) == boxes_course(
                b@,
                nest,
                at as int,
                end as int,
                timeless,
            ),
        decreases end - at,
    {
        match read_head(b, at) {
            None => {
                return Step::Refused;
            },
            Some(h) => {
                let next: u128 = if h.2 == 0 {
                    end
                } else {
                    at as u128 + h.2 as u128
                };
                if next > u64::MAX as u128 {
                    return Step::Lost;
                }
                let len: u64 = if h.2 == 0 {
                    0
                } else {
                    h.2 - h.1 as u64
                };
                match test_box(b, nest, h.0, at + h.1, len) {
                    Step::On(q, t) => {
                        if q as u128 > next || next > b.len() as u128 {
                            return Step::Refused;
                        }
                        timeless = merge(nest, h.0, timeless, t);
                        at = next as usize;
                    },
                    other => {
                        return other;
                    },
                }
            },
        }
        if at as u128 > end {
            return Step::On(at, timeless);
        }
    }
    Step::On(at, timeless)
}

} // verus!
