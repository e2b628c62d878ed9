//! WAVE files: the chunks up to the samples.

use crate::audio::container::bytes::{be32, le16, le32, read_be32, read_le16, read_le32, Course, Step};
use vstd::prelude::*;

verus! {

/// Names of chunks and forms, as the number in their four bytes.
pub const WAVE_FORM: u64 = 0x5741_5645;

pub const FMT: u64 = 0x666d_7420;

pub const LIST: u64 = 0x4c49_5354;

pub const INFO: u64 = 0x494e_464f;

pub const FACT: u64 = 0x6661_6374;

pub const DATA: u64 = 0x6461_7461;

/// The largest length that a chunk can have.
pub const LONGEST: u64 = 0xffff_ffff;

/// How many bits are set.
pub open spec fn ones(v: int) -> int
    decreases v,
{
    if v <= 0 {
        0
    } else {
        v % 2 + ones(v / 2)
    }
}

fn count_ones(v: u64) -> (r: u64)
    ensures
        r == ones(v as int),
{
    let mut rest: u64 = v;
    let mut count: u64 = 0;
    while rest > 0
        invariant
            count + ones(rest as int) == ones(v as int),
            count + rest <= v,
        decreases rest,
    {
        count = count + rest % 2;
        rest = rest / 2;
    }
    count
}

/// What is found where a chunk may start.
pub ghost enum Found {
    /// There is no room for another chunk. The place behind, and what is consumed.
    End(int, int),
    /// A chunk: its name, its length, where its content starts, and what is
    /// consumed with it.
    Chunk(int, int, int, int),
    Refused,
    Lost,
}

/// [`Found`], computed.
pub enum Here {
    End(usize, u64),
    Chunk(u64, u64, usize, u64),
    Refused,
    Lost,
}

impl Here {
    pub open spec fn found(self) -> Found {
        match self {
            Here::End(p, c) => Found::End(p as int, c as int),
            Here::Chunk(t, l, p, c) => Found::Chunk(t as int, l as int, p as int, c as int),
            Here::Refused => Found::Refused,
            Here::Lost => Found::Lost,
        }
    }
}

/// The next chunk of a list of `len` bytes, of which `consumed` are behind. Chunks
/// start at even places. The count of what is consumed has 32 bits, and the
/// reader does not survive it running over.
pub open spec fn next_chunk(b: Seq<u8>, pos: int, consumed: int, len: int) -> Found {
    let odd = consumed % 2;
    let p = pos + odd;
    let c = consumed + odd;
    if p > b.len() {
        Found::Refused
    } else if c + 8 > LONGEST {
        Found::Lost
    } else if c + 8 > len {
        Found::End(p, c)
    } else if p + 8 > b.len() {
        Found::Refused
    } else {
        let size = le32(b, p + 4);
        if len - (c + 8) < size && !(len == size && size == LONGEST) {
            Found::Refused
        } else {
            let total = c + 8 + size;
            Found::Chunk(
                be32(b, p),
                size,
                p + 8,
                if total > LONGEST {
                    LONGEST as int
                } else {
                    total
                },
            )
        }
    }
}

fn find_chunk(b: &Vec<u8>, pos: usize, consumed: u64, len: u64) -> (r: Here)
    requires
        pos <= b.len(),
        consumed <= LONGEST,
        len <= LONGEST,
    ensures
        r.found() == next_chunk(b@, pos as int, consumed as int, len as int),
        match r {
            Here::End(p, c) => pos <= p <= b.len() && c <= LONGEST,
            Here::Chunk(_, size, p, c) => pos + 8 <= p <= b.len() && c <= LONGEST && size
                <= LONGEST,
            _ => true,
        },
{
    let odd: u64 = consumed % 2;
    if odd == 1 && pos == b.len() {
        return Here::Refused;
    }
    let p: usize = pos + odd as usize;
    let c: u64 = consumed + odd;
    if c + 8 > LONGEST {
        return Here::Lost;
    }
    if c + 8 > len {
        return Here::End(p, c);
    }
    if b.len() - p < 8 {
        return Here::Refused;
    }
    let size = read_le32(b, p + 4);
    if len - (c + 8) < size && !(len == size && size == LONGEST) {
        return Here::Refused;
    }
    let total: u64 = c + 8 + size;
    Here::Chunk(
        read_be32(b, p),
        size,
        p + 8,
        if total > LONGEST {
            LONGEST
        } else {
            total
        },
    )
}

/// Some number of channels that has a mask of speakers.
pub open spec fn has_mask(channels: int) -> bool {
    1 <= channels <= 26
}

/// A block of so many bytes, with a head of `head` bytes per channel, holds what
/// can be counted in 16 bits.
pub open spec fn block_sound(align: int, head: int, channels: int) -> bool {
    head * channels <= align && (align - head * channels) * 8 <= 0xffff
}

/// The mask of speakers can be brought in line with the number of channels: what
/// is missing fits above its highest bit.
pub open spec fn mask_sound(mask: int, channels: int) -> bool {
    let missing = channels - ones(mask);
    missing <= 0 || (missing < 32 && mask < 0x8000_0000)
}

/// A format chunk of `size` bytes at `p`. A sample rate of 0 is not survived by
/// any format that is known.
pub open spec fn format_course(b: Seq<u8>, p: int, size: int) -> Course {
    let tag = le16(b, p);
    let channels = le16(b, p + 2);
    let rate = le32(b, p + 4);
    let align = le16(b, p + 12);
    let bits = le16(b, p + 14);
    let extra = le16(b, p + 16);
    if size < 16 || p + 16 > b.len() {
        Course::Refused
    } else if tag == 1 || tag == 3 {
        if (size != 16 && size != 18 && size != 40) || !has_mask(channels) {
            Course::Refused
        } else if (tag == 1 || size == 18) && p + size > b.len() {
            Course::Refused
        } else if rate == 0 {
            Course::Lost
        } else {
            Course::On(
                if p + size > b.len() {
                    b.len() as int
                } else {
                    p + size
                },
                false,
            )
        }
    } else if tag == 2 || tag == 0x11 {
        if bits != 4 || size < 20 || p + 18 > b.len() || !has_mask(channels) {
            Course::Refused
        } else if (tag == 2 && extra < 32) || (tag == 0x11 && extra != 2) || p + 18 + extra
            > b.len() {
            Course::Refused
        } else if rate == 0 || !block_sound(
            align,
            if tag == 2 {
                7
            } else {
                4
            },
            channels,
        ) {
            Course::Lost
        } else {
            Course::On(p + 18 + extra, false)
        }
    } else if tag == 0xfffe {
        if size < 40 || p + 24 > b.len() || extra != 22 || bits % 8 != 0 || le16(b, p + 18)
            > bits {
            Course::Refused
        } else if !mask_sound(le32(b, p + 20), channels) {
            Course::Lost
        } else if p + 40 > b.len() {
            Course::Refused
        } else if rate == 0 || (bits == 0 && le32(b, p + 24) == 1) {
            Course::Lost
        } else {
            Course::On(p + 40, false)
        }
    } else if tag == 6 || tag == 7 {
        if size != 18 || p + 18 > b.len() || p + 18 + extra > b.len() || !has_mask(channels) {
            Course::Refused
        } else if rate == 0 {
            Course::Lost
        } else {
            Course::On(p + 18 + extra, false)
        }
    } else {
        Course::Refused
    }
}

fn test_format(b: &Vec<u8>, p: usize, size: u64) -> (r: Step)
    requires
        p <= b.len(),
    ensures
        r.course() == format_course(b@, p as int, size as int),
        r matches Step::On(q, _) ==> p <= q <= b.len(),
{
    let room: usize = b.len() - p;
    if size < 16 || room < 16 {
        return Step::Refused;
    }
    let tag = read_le16(b, p);
    let channels = read_le16(b, p + 2);
    let rate = read_le32(b, p + 4);
    let align = read_le16(b, p + 12);
    let bits = read_le16(b, p + 14);
    let masked = 1 <= channels && channels <= 26;
    if tag == 1 || tag == 3 {
        if (size != 16 && size != 18 && size != 40) || !masked {
            return Step::Refused;
        }
        let short = size > room as u64;
        if (tag == 1 || size == 18) && short {
            return Step::Refused;
        }
        if rate == 0 {
            return Step::Lost;
        }
        return Step::On(
            if short {
                b.len()
            } else {
                p + size as usize
            },
            false,
        );
    }
    if tag == 2 || tag == 0x11 {
        if bits != 4 || size < 20 || room < 18 || !masked {
            return Step::Refused;
        }
        let extra = read_le16(b, p + 16);
        if (tag == 2 && extra < 32) || (tag == 0x11 && extra != 2) || room - 18 < extra as usize {
            return Step::Refused;
        }
        let head: u64 = if tag == 2 {
            7
        } else {
            4
        };
        assert(head * channels <= 7 * 26) by (nonlinear_arith)
            requires
                head <= 7,
                channels <= 26,
        ;
        if rate == 0 || align < head * channels || (align - head * channels) * 8 > 0xffff {
            return Step::Lost;
        }
        return Step::On(p + 18 + extra as usize, false);
    }
    if tag == 0xfffe {
        if size < 40 || room < 24 {
            return Step::Refused;
        }
        if read_le16(b, p + 16) != 22 || bits % 8 != 0 || read_le16(b, p + 18) > bits {
            return Step::Refused;
        }
        let mask = read_le32(b, p + 20);
        let set = count_ones(mask);
        if channels > set && (channels - set >= 32 || mask >= 0x8000_0000) {
            return Step::Lost;
        }
        if room < 40 {
            return Step::Refused;
        }
        if rate == 0 || (bits == 0 && read_le32(b, p + 24) == 1) {
            return Step::Lost;
        }
        return Step::On(p + 40, false);
    }
    if tag == 6 || tag == 7 {
        if size != 18 || room < 18 {
            return Step::Refused;
        }
        let extra = read_le16(b, p + 16);
        if room - 18 < extra as usize || !masked {
            return Step::Refused;
        }
        if rate == 0 {
            return Step::Lost;
        }
        return Step::On(p + 18 + extra as usize, false);
    }
    Step::Refused
}

/// A list of information, `len` bytes, of which `consumed` are behind: every chunk
/// in it is read whole.
pub open spec fn info_course(b: Seq<u8>, pos: int, consumed: int, len: int) -> Course
    decreases b.len() - pos,
{
    match next_chunk(b, pos, consumed, len) {
        Found::Refused => Course::Refused,
        Found::Lost => Course::Lost,
        Found::End(p, c) => {
            let rest = if c < len {
                len - c
            } else {
                0
            };
            let q = p + rest + len % 2;
            if q > b.len() {
                Course::Refused
            } else {
                Course::On(q, false)
            }
        },
        Found::Chunk(_, size, p, c) => if p <= pos || size < 0 {
            Course::Refused
        } else if p + size > b.len() {
            Course::Cut
        } else {
            info_course(b, p + size, c, len)
        },
    }
}

fn test_info(b: &Vec<u8>, start: usize, len: u64) -> (r: Step)
    requires
        start <= b.len(),
        len <= LONGEST,
    ensures
        r.course() == info_course(b@, start as int, 0, len as int),
        r matches Step::On(q, _) ==> start <= q <= b.len(),
{
    let mut pos: usize = start;
    let mut consumed: u64 = 0;
    loop
        invariant
            start <= pos <= b@.len(),
            consumed <= LONGEST,
            len <= LONGEST,
            info_course(b@, start as int, 0, len as int) == info_course(
                b@,
                pos as int,
                consumed as int,
                len as int,
            ),
        decreases b@.len() - pos,
    {
        match find_chunk(b, pos, consumed, len) {
            Here::Refused => {
                return Step::Refused;
            },
            Here::Lost => {
                return Step::Lost;
            },
            Here::End(p, c) => {
                let rest: u64 = if c < len {
                    len - c
                } else {
                    0
                };
                let need: u64 = rest + len % 2;
                if need > (b.len() - p) as u64 {
                    return Step::Refused;
                }
                return Step::On(p + need as usize, false);
            },
            Here::Chunk(_, size, p, c) => {
                if size > (b.len() - p) as u64 {
                    return Step::Cut;
                }
                pos = p + size as usize;
                consumed = c;
            },
        }
    }
}

/// A list chunk of `size` bytes at `p`.
pub open spec fn list_course(b: Seq<u8>, p: int, size: int) -> Course {
    if size < 4 || p + 4 > b.len() {
        Course::Refused
    } else if be32(b, p) == INFO {
        info_course(b, p + 4, 0, size - 4)
    } else {
        let q = p + size + size % 2;
        if q > b.len() {
            Course::Refused
        } else {
            Course::On(q, false)
        }
    }
}

fn test_list(b: &Vec<u8>, p: usize, size: u64) -> (r: Step)
    requires
        p <= b.len(),
        size <= LONGEST,
    ensures
        r.course() == list_course(b@, p as int, size as int),
        r matches Step::On(q, _) ==> p <= q <= b.len(),
{
    let room: usize = b.len() - p;
    if size < 4 || room < 4 {
        return Step::Refused;
    }
    if read_be32(b, p) == INFO {
        return test_info(b, p + 4, size - 4);
    }
    let need: u64 = size + size % 2;
    if need > room as u64 {
        return Step::Refused;
    }
    Step::On(p + need as usize, false)
}

/// The chunks of a WAVE file of `len` bytes, of which `consumed` are behind, up to
/// the samples.
pub open spec fn chunks_course(b: Seq<u8>, pos: int, consumed: int, len: int) -> Course
    decreases b.len() - pos,
{
    match next_chunk(b, pos, consumed, len) {
        Found::Refused => Course::Refused,
        Found::Lost => Course::Lost,
        Found::End(_, _) => Course::Refused,
        Found::Chunk(tag, size, p, c) => if p <= pos || p > b.len() || size < 0 {
            Course::Refused
        } else if tag == DATA {
            Course::On(p, false)
        } else {
            let course = if tag == FMT {
                format_course(b, p, size)
            } else if tag == LIST {
                list_course(b, p, size)
            } else if tag == FACT && size != 4 {
                Course::Refused
            } else if p + size > b.len() {
                Course::Refused
            } else {
                Course::On(p + size, false)
            };
            match course {
                Course::On(q, _) => if q < p || q > b.len() {
                    Course::Refused
                } else {
                    chunks_course(b, q, c, len)
                },
                other => other,
            }
        },
    }
}

/// The file behind the mark at `at`.
pub open spec fn wave_course(b: Seq<u8>, at: int) -> Course {
    if at + 12 > b.len() || be32(b, at + 8) != WAVE_FORM {
        Course::Refused
    } else {
        chunks_course(b, at + 12, 0, le32(b, at + 4))
    }
}

/// [`wave_course`], computed.
pub fn test_wave(b: &Vec<u8>, at: usize) -> (r: Step)
    requires
        at <= b.len(),
    ensures
        r.course() == wave_course(b@, at as int),
{
    if b.len() - at < 12 || read_be32(b, at + 8) != WAVE_FORM {
        return Step::Refused;
    }
    let len = read_le32(b, at + 4);
    let mut pos: usize = at + 12;
    let mut consumed: u64 = 0;
    loop
        invariant
            pos <= b@.len(),
            consumed <= LONGEST,
            len <= LONGEST,
            wave_course(b@, at as int) == chunks_course(
                b@,
                pos as int,
                consumed as int,
                len as int,
            ),
        decreases b@.len() - pos,
    {
        match find_chunk(b, pos, consumed, len) {
            Here::Refused => {
                return Step::Refused;
            },
            Here::Lost => {
                return Step::Lost;
            },
            Here::End(_, _) => {
                return Step::Refused;
            },
            Here::Chunk(tag, size, p, c) => {
                if tag == DATA {
                    return Step::On(p, false);
                }
                let step = if tag == FMT {
                    test_format(b, p, size)
                } else if tag == LIST {
                    test_list(b, p, size)
                } else if (tag == FACT && size != 4) || size > (b.len() - p) as u64 {
                    Step::Refused
                } else {
                    Step::On(p + size as usize, false)
                };
                match step {
                    Step::On(q, _) => {
                        pos = q;
                        consumed = c;
                    },
                    other => {
                        return other;
                    },
                }
            },
        }
    }
}

} // verus!
