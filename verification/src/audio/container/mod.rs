//! What a file in memory must hold so that its container can be opened.
//!
//! A container is found by the first mark in the file, behind any tags. Some
//! readers behind those marks do not survive absurd headers: a sample rate of 0,
//! a sum that runs over, a descriptor that is missing. This module follows the
//! headers as far as the reader would, up to where it answers, and tells what
//! becomes of it. Nothing that the reader passes over counts.

pub mod bytes;
pub mod descriptor;
pub mod movie;
pub mod riff;

use crate::audio::container::bytes::{be32, read_be32, Course, Step};
use crate::audio::container::movie::Nest;
use vstd::prelude::*;

verus! {

/// Marks of four bytes, as the number in them.
pub const RIFF: u64 = 0x5249_4646;

pub const FTYP: u64 = 0x6674_7970;

pub const FLAC: u64 = 0x664c_6143;

/// How many bytes are searched for a mark.
pub const SEARCHED: usize = 0x10_0000;

/// What a mark announces.
pub enum Marker {
    Riff,
    Movie,
    /// AAC frames.
    Adts,
    /// MPEG audio frames, or a FLAC stream: every header of theirs is survived.
    Stream,
    /// An ID3 tag, with something else behind it.
    Id3,
}

/// The mark at a place in the file.
pub open spec fn marker_at(b: Seq<u8>, p: int) -> Option<Marker> {
    if be32(b, p) == RIFF {
        Some(Marker::Riff)
    } else if be32(b, p) == FTYP {
        Some(Marker::Movie)
    } else if be32(b, p) == FLAC {
        Some(Marker::Stream)
    } else if b[p] == 0x49 && b[p + 1] == 0x44 && b[p + 2] == 0x33 {
        Some(Marker::Id3)
    } else if b[p] == 0xff && b[p + 1] == 0xf1 {
        Some(Marker::Adts)
    } else if b[p] == 0xff && (0xe2 <= b[p + 1] <= 0xe7 || 0xf2 <= b[p + 1] <= 0xf7 || 0xfa <= b[p
        + 1]) {
        Some(Marker::Stream)
    } else {
        None
    }
}

fn find_marker(b: &Vec<u8>, p: usize) -> (r: Option<Marker>)
    requires
        p + 4 <= b.len(),
    ensures
        r == marker_at(b@, p as int),
{
    let tag = read_be32(b, p);
    if tag == RIFF {
        Some(Marker::Riff)
    } else if tag == FTYP {
        Some(Marker::Movie)
    } else if tag == FLAC {
        Some(Marker::Stream)
    } else if b[p] == 0x49 && b[p + 1] == 0x44 && b[p + 2] == 0x33 {
        Some(Marker::Id3)
    } else if b[p] == 0xff && b[p + 1] == 0xf1 {
        Some(Marker::Adts)
    } else if b[p] == 0xff && ((0xe2 <= b[p + 1] && b[p + 1] <= 0xe7) || (0xf2 <= b[p + 1] && b[p
        + 1] <= 0xf7) || 0xfa <= b[p + 1]) {
        Some(Marker::Stream)
    } else {
        None
    }
}

/// The movie whose file type stands at `p`: its boxes start four bytes before, and
/// the reader takes the length of the file for theirs. Every track needs a time
/// scale in the end.
pub open spec fn movie_course(b: Seq<u8>, p: int) -> Course {
    let start = if p < 4 {
        0
    } else {
        p - 4
    };
    match movie::boxes_course(b, Nest::File, start, start + b.len(), false) {
        Course::On(q, timeless) => if timeless {
            Course::Lost
        } else {
            Course::On(q, false)
        },
        other => other,
    }
}

fn test_movie(b: &Vec<u8>, p: usize) -> (r: Step)
    requires
        p <= b.len(),
    ensures
        r.course() == movie_course(b@, p as int),
{
    let start: usize = if p < 4 {
        0
    } else {
        p - 4
    };
    match movie::test_boxes(b, Nest::File, start, start as u128 + b.len() as u128) {
        Step::On(q, timeless) => if timeless {
            Step::Lost
        } else {
            Step::On(q, false)
        },
        other => other,
    }
}

/// AAC frames from `p` on. Behind a good header, the length of the stream is judged
/// by frames at four places, which takes as many bytes from `p` on as stand before
/// it, and four more.
pub open spec fn adts_course(b: Seq<u8>, p: int) -> Course {
    let length = (b[p + 3] % 4) * 0x800 + b[p + 4] * 8 + b[p + 5] / 32;
    if (b[p + 2] / 4) % 16 >= 13 || length < 7 || b[p + 6] % 4 != 0 {
        Course::Refused
    } else if b.len() < 2 * p + 4 {
        Course::Lost
    } else {
        Course::On(p, false)
    }
}

fn test_adts(b: &Vec<u8>, p: usize) -> (r: Step)
    requires
        p + 16 <= b.len(),
    ensures
        r.course() == adts_course(b@, p as int),
{
    let length: u64 = (b[p + 3] % 4) as u64 * 0x800 + b[p + 4] as u64 * 8 + (b[p + 5] / 32) as u64;
    if (b[p + 2] / 4) % 16 >= 13 || length < 7 || b[p + 6] % 4 != 0 {
        Step::Refused
    } else if b.len() - p < p || b.len() - p - p < 4 {
        Step::Lost
    } else {
        Step::On(p, false)
    }
}

/// Length of the ID3 tag at `p` behind its head; seven bits count in each byte.
pub open spec fn id3_length(b: Seq<u8>, p: int) -> int {
    (b[p + 6] % 128) * 0x20_0000 + (b[p + 7] % 128) * 0x4000 + (b[p + 8] % 128) * 0x80 + b[p + 9]
        % 128
}

/// The restrictions in the extended header of an ID3 tag, which ends at `end`, stand
/// behind the lengths and values of the flags before them. One of their bits is
/// not survived.
pub open spec fn restrictions_course(b: Seq<u8>, p: int, end: int) -> Course {
    let flags = b[p + 15];
    let update = if (flags / 64) % 2 == 1 {
        1int
    } else {
        0
    };
    let q = p + 16 + update;
    let check = if (flags / 32) % 2 == 1 {
        6int
    } else {
        0
    };
    let r = q + check;
    if p + 16 > end || b[p + 14] != 1 {
        Course::Refused
    } else if update == 1 && (q > end || b[p + 16] != 1) {
        Course::Refused
    } else if check == 6 && (r > end || b[q] != 5) {
        Course::Refused
    } else if (flags / 16) % 2 == 0 {
        Course::On(r, false)
    } else if r + 2 > end || b[r] != 1 {
        Course::Refused
    } else if (b[r + 1] / 64) % 2 == 1 {
        Course::Lost
    } else {
        Course::On(r + 2, false)
    }
}

fn test_restrictions(b: &Vec<u8>, p: usize, end: usize) -> (r: Step)
    requires
        p + 10 <= end <= b.len(),
    ensures
        r.course() == restrictions_course(b@, p as int, end as int),
{
    let room: usize = end - p;
    if room < 16 || b[p + 14] != 1 {
        return Step::Refused;
    }
    let flags = b[p + 15];
    let mut q: usize = 16;
    if (flags / 64) % 2 == 1 {
        if room < 17 || b[p + 16] != 1 {
            return Step::Refused;
        }
        q = 17;
    }
    if (flags / 32) % 2 == 1 {
        if room < q + 6 || b[p + q] != 5 {
            return Step::Refused;
        }
        q = q + 6;
    }
    if (flags / 16) % 2 == 0 {
        return Step::On(p + q, false);
    }
    if room < q + 2 || b[p + q] != 1 {
        return Step::Refused;
    }
    if (b[p + q + 1] / 64) % 2 == 1 {
        return Step::Lost;
    }
    Step::On(p + q + 2, false)
}

/// The ID3 tag at `p`, up to what stands behind it. Only a version of 4 has an
/// extended header with restrictions.
pub open spec fn id3_course(b: Seq<u8>, p: int) -> Course {
    let end = p + 10 + id3_length(b, p);
    let extended = b[p + 3] == 4 && (b[p + 5] / 64) % 2 == 1;
    let course = if extended {
        restrictions_course(
            b,
            p,
            if end < b.len() {
                end
            } else {
                b.len() as int
            },
        )
    } else {
        Course::On(p, false)
    };
    match course {
        Course::On(_, _) => if b[p + 3] < 2 || b[p + 3] > 4 || b[p + 4] == 0xff || end > b.len() {
            Course::Refused
        } else {
            Course::On(end, false)
        },
        other => other,
    }
}

fn test_id3(b: &Vec<u8>, p: usize) -> (r: Step)
    requires
        p + 16 <= b.len(),
    ensures
        r.course() == id3_course(b@, p as int),
        r matches Step::On(q, _) ==> p < q <= b.len(),
{
    let length: usize = (b[p + 6] % 128) as usize * 0x20_0000 + (b[p + 7] % 128) as usize * 0x4000
        + (b[p + 8] % 128) as usize * 0x80 + (b[p + 9] % 128) as usize;
    let short = length > b.len() - p - 10;
    if b[p + 3] == 4 && (b[p + 5] / 64) % 2 == 1 {
        let end: usize = if short {
            b.len()
        } else {
            p + 10 + length
        };
        match test_restrictions(b, p, end) {
            Step::On(_, _) => {},
            other => {
                return other;
            },
        }
    }
    if b[p + 3] < 2 || b[p + 3] > 4 || b[p + 4] == 0xff || short {
        return Step::Refused;
    }
    Step::On(p + 10 + length, false)
}

/// What becomes of the reader that is found from `at` on; the search started at
/// `start`. A mark counts with sixteen bytes to look at.
pub open spec fn course_from(b: Seq<u8>, start: int, at: int) -> Course
    decreases b.len() - at,
{
    if at < 0 || at + 16 > b.len() || at + 2 - start > SEARCHED {
        Course::Refused
    } else {
        match marker_at(b, at) {
            None => course_from(b, start, at + 1),
            Some(Marker::Riff) => riff::wave_course(b, at),
            Some(Marker::Movie) => movie_course(b, at),
            Some(Marker::Adts) => adts_course(b, at),
            Some(Marker::Stream) => Course::On(at, false),
            Some(Marker::Id3) => match id3_course(b, at) {
                Course::On(q, _) => if q <= at || q > b.len() {
                    Course::Refused
                } else {
                    course_from(b, q, q)
                },
                other => other,
            },
        }
    }
}

/// What can be made of a file in memory.
#[derive(Debug, Clone, Copy, PartialEq, Eq, Structural)]
pub enum Verdict {
    /// Its container can be opened, or is refused in an orderly way.
    Sound,
    /// Its headers announce more than there is in the file.
    Cut,
    /// Its headers are not survived.
    Lost,
}

/// What can be made of the bytes of a file.
pub open spec fn verdict(b: Seq<u8>) -> Verdict {
    match course_from(b, 0, 0) {
        Course::Lost => Verdict::Lost,
        Course::Cut => Verdict::Cut,
        _ => Verdict::Sound,
    }
}

fn judge(step: Step) -> (r: Verdict)
    ensures
        r == match step.course() {
            Course::Lost => Verdict::Lost,
            Course::Cut => Verdict::Cut,
            _ => Verdict::Sound,
        },
{
    match step {
        Step::Lost => Verdict::Lost,
        Step::Cut => Verdict::Cut,
        Step::On(_, _) => Verdict::Sound,
        Step::Refused => Verdict::Sound,
    }
}

/// Tells what can be made of a file in memory, before any reader is asked.
pub fn inspect(b: &Vec<u8>) -> (r: Verdict)
    ensures
        r == verdict(b@),
{
    let n: usize = b.len();
    let mut start: usize = 0;
    let mut at: usize = 0;
    while n - at >= 16 && at - start + 2 <= SEARCHED
        invariant
            n == b@.len(),
            start <= at <= n,
            course_from(b@, 0, 0) == course_from(b@, start as int, at as int),
        decreases n - at,
    {
        match find_marker(b, at) {
            None => {
                at = at + 1;
            },
            Some(Marker::Riff) => {
                return judge(riff::test_wave(b, at));
            },
            Some(Marker::Movie) => {
                return judge(test_movie(b, at));
            },
            Some(Marker::Adts) => {
                return judge(test_adts(b, at));
            },
            Some(Marker::Stream) => {
                return Verdict::Sound;
            },
            Some(Marker::Id3) => match test_id3(b, at) {
                Step::On(q, _) => {
                    start = q;
                    at = q;
                },
                other => {
                    return judge(other);
                },
            },
        }
    }
    Verdict::Sound
}

} // verus!
