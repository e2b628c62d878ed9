//! The descriptor of an elementary stream, inside a movie.
//!
//! Descriptors are nested: the stream holds the configuration of its decoder. A
//! descriptor that is shorter than its own fields is not survived, nor is a box
//! without a stream.

use crate::audio::container::bytes::{Course, Step};
use vstd::prelude::*;

verus! {

pub const STREAM: u8 = 3;

pub const DECODER: u8 = 4;

pub const LAYER: u8 = 6;

pub open spec fn least(a: int, b: int) -> int {
    if a < b {
        a
    } else {
        b
    }
}

/// The length that is written from `q` on, seven bits in a byte, and where it
/// ends: with a byte below 128, or with the `left`-th.
pub open spec fn length_at(b: Seq<u8>, q: int, limit: int, so_far: int, left: int) -> Option<(int, int)>
    decreases left,
{
    if left <= 0 {
        Some((so_far, q))
    } else if q + 1 > limit {
        None
    } else {
        let size = so_far * 128 + b[q] % 128;
        if b[q] < 128 {
            Some((size, q + 1))
        } else {
            length_at(b, q + 1, limit, size, left - 1)
        }
    }
}

/// A descriptor that starts at `q`: its kind, its length, and where its content
/// starts; nothing behind `limit` is read.
pub open spec fn head_at(b: Seq<u8>, q: int, limit: int) -> Option<(u8, int, int)> {
    if q + 1 > limit {
        None
    } else {
        match length_at(b, q + 1, limit, 0, 4) {
            None => None,
            Some(l) => Some((b[q], l.0, l.1)),
        }
    }
}

fn read_head(b: &Vec<u8>, q: usize, limit: usize) -> (r: Option<(u8, u64, usize)>)
    requires
        q <= limit <= b.len(),
    ensures
        match r {
            None => head_at(b@, q as int, limit as int) is None,
            Some(h) => {
                &&& head_at(b@, q as int, limit as int) == Some((h.0, h.1 as int, h.2 as int))
                &&& q < h.2 <= limit
                &&& h.1 < 0x1000_0000
            },
        },
{
    if limit - q < 1 {
        return None;
    }
    let mut at: usize = q + 1;
    let mut size: u64 = 0;
    let mut left: u64 = 4;
    let mut bound: u64 = 1;
    while left > 0
        invariant
            q < at <= limit,
            limit <= b@.len(),
            left <= 4,
            size < bound,
            left == 4 ==> bound == 1,
            left == 3 ==> bound == 0x80,
            left == 2 ==> bound == 0x4000,
            left == 1 ==> bound == 0x20_0000,
            left == 0 ==> bound == 0x1000_0000,
            length_at(b@, q + 1, limit as int, 0, 4) == length_at(
                b@,
                at as int,
                limit as int,
                size as int,
                left as int,
            ),
        decreases left,
    {
        if limit - at < 1 {
            return None;
        }
        let v = b[at];
        size = size * 128 + (v % 128) as u64;
        at = at + 1;
        if v < 128 {
            return Some((b[q], size, at));
        }
        left = left - 1;
        bound = bound * 128;
    }
    Some((b[q], size, at))
}

/// The descriptors inside the configuration of a decoder, which ends at `end`,
/// inside what ends at `limit`.
pub open spec fn inner_course(b: Seq<u8>, q: int, end: int, limit: int) -> Course
    decreases limit - q,
{
    let l = least(end, limit);
    if end - q <= 2 {
        if end > limit || end < q {
            Course::Refused
        } else {
            Course::On(end, false)
        }
    } else {
        match head_at(b, q, l) {
            None => Course::Refused,
            Some(h) => if h.1 < 0 || h.2 <= q || h.2 + h.1 > l {
                Course::Refused
            } else {
                inner_course(b, h.2 + h.1, end, limit)
            },
        }
    }
}

fn test_inner(b: &Vec<u8>, start: usize, end: u128, limit: usize) -> (r: Step)
    requires
        start <= limit <= b.len(),
        start <= end,
    ensures
        r.course() == inner_course(b@, start as int, end as int, limit as int),
        r matches Step::On(p, _) ==> start <= p <= limit,
{
    let mut q: usize = start;
    let l: usize = if end < limit as u128 {
        end as usize
    } else {
        limit
    };
    while end - q as u128 > 2
        invariant
            start <= q <= l,
            l == least(end as int, limit as int),
            limit <= b@.len(),
            inner_course(b@, start as int, end as int, limit as int) == inner_course(
                b@,
                q as int,
                end as int,
                limit as int,
            ),
        decreases l - q,
    {
        match read_head(b, q, l) {
            None => {
                return Step::Refused;
            },
            Some(h) => {
                if h.1 > (l - h.2) as u64 {
                    return Step::Refused;
                }
                q = h.2 + h.1 as usize;
            },
        }
    }
    if end > limit as u128 {
        return Step::Refused;
    }
    Step::On(end as usize, false)
}

/// One descriptor inside a stream, with its content at `h.2`.
pub open spec fn part_course(b: Seq<u8>, h: (u8, int, int), l: int) -> Course {
    if h.0 == DECODER {
        if h.2 + 13 > l {
            Course::Refused
        } else if h.1 < 13 {
            Course::Lost
        } else {
            inner_course(b, h.2 + 13, h.2 + h.1, l)
        }
    } else if h.0 == LAYER {
        if h.2 + 1 > l || b[h.2] != 2 {
            Course::Refused
        } else {
            Course::On(h.2 + 1, false)
        }
    } else if h.2 + h.1 > l {
        Course::Refused
    } else {
        Course::On(h.2 + h.1, false)
    }
}

fn test_part(b: &Vec<u8>, h: (u8, u64, usize), l: usize) -> (r: Step)
    requires
        h.2 <= l <= b.len(),
        h.1 < 0x1000_0000,
    ensures
        r.course() == part_course(b@, (h.0, h.1 as int, h.2 as int), l as int),
        r matches Step::On(p, _) ==> h.2 <= p <= l,
{
    let room: usize = l - h.2;
    if h.0 == DECODER {
        if room < 13 {
            return Step::Refused;
        }
        if h.1 < 13 {
            return Step::Lost;
        }
        return test_inner(b, h.2 + 13, h.2 as u128 + h.1 as u128, l);
    }
    if h.0 == LAYER {
        if room < 1 || b[h.2] != 2 {
            return Step::Refused;
        }
        return Step::On(h.2 + 1, false);
    }
    if h.1 > room as u64 {
        return Step::Refused;
    }
    Step::On(h.2 + h.1 as usize, false)
}

/// The descriptors inside a stream, which ends at `end`, inside what ends at
/// `limit`.
pub open spec fn parts_course(b: Seq<u8>, q: int, end: int, limit: int) -> Course
    decreases limit - q,
{
    let l = least(end, limit);
    if end - q <= 2 {
        if end > limit || end < q {
            Course::Refused
        } else {
            Course::On(end, false)
        }
    } else {
        match head_at(b, q, l) {
            None => Course::Refused,
            Some(h) => match part_course(b, h, l) {
                Course::On(r, _) => if r <= q || r > limit {
                    Course::Refused
                } else {
                    parts_course(b, r, end, limit)
                },
                other => other,
            },
        }
    }
}

fn test_parts(b: &Vec<u8>, start: usize, end: u128, limit: usize) -> (r: Step)
    requires
        start <= limit <= b.len(),
        start <= end,
    ensures
        r.course() == parts_course(b@, start as int, end as int, limit as int),
        r matches Step::On(p, _) ==> start <= p <= limit,
{
    let mut q: usize = start;
    let l: usize = if end < limit as u128 {
        end as usize
    } else {
        limit
    };
    while end - q as u128 > 2
        invariant
            start <= q <= l,
            l == least(end as int, limit as int),
            limit <= b@.len(),
            parts_course(b@, start as int, end as int, limit as int) == parts_course(
                b@,
                q as int,
                end as int,
                limit as int,
            ),
        decreases l - q,
    {
        match read_head(b, q, l) {
            None => {
                return Step::Refused;
            },
            Some(h) => match test_part(b, h, l) {
                Step::On(p, _) => {
                    q = p;
                },
                other => {
                    return other;
                },
            },
        }
    }
    if end > limit as u128 {
        return Step::Refused;
    }
    Step::On(end as usize, false)
}

/// Where the descriptors inside a stream start whose fields start at `q`: behind
/// its number and flags, and what the flags announce.
pub open spec fn fields_end(b: Seq<u8>, q: int, limit: int) -> Option<int> {
    let flags = b[q + 2];
    let p = q + 3 + if flags / 128 == 1 {
        2int
    } else {
        0
    };
    let r = if (flags / 64) % 2 == 1 {
        p + 1 + b[p]
    } else {
        p
    };
    let e = r + if (flags / 32) % 2 == 1 {
        2int
    } else {
        0
    };
    if q + 3 > limit || p > limit || ((flags / 64) % 2 == 1 && p + 1 > limit) || e > limit {
        None
    } else {
        Some(e)
    }
}

fn find_fields_end(b: &Vec<u8>, q: usize, limit: usize) -> (r: Option<usize>)
    requires
        q <= limit <= b.len(),
    ensures
        match r {
            None => fields_end(b@, q as int, limit as int) is None,
            Some(e) => fields_end(b@, q as int, limit as int) == Some(e as int) && q < e <= limit,
        },
{
    if limit - q < 3 {
        return None;
    }
    let flags = b[q + 2];
    let mut p: usize = q + 3;
    if flags / 128 == 1 {
        if limit - p < 2 {
            return None;
        }
        p = p + 2;
    }
    if (flags / 64) % 2 == 1 {
        if limit - p < 1 {
            return None;
        }
        let url = b[p] as usize;
        if limit - p - 1 < url {
            return None;
        }
        p = p + 1 + url;
    }
    if (flags / 32) % 2 == 1 {
        if limit - p < 2 {
            return None;
        }
        p = p + 2;
    }
    Some(p)
}

/// One descriptor of the box, with its content at `h.2`.
pub open spec fn stream_course(b: Seq<u8>, h: (u8, int, int), limit: int) -> Course {
    if h.0 == STREAM {
        match fields_end(b, h.2, limit) {
            None => Course::Refused,
            Some(e) => if h.1 < 3 {
                Course::Lost
            } else {
                parts_course(b, e, e + h.1 - 3, limit)
            },
        }
    } else if h.2 + h.1 > limit {
        Course::Refused
    } else {
        Course::On(h.2 + h.1, false)
    }
}

fn test_stream(b: &Vec<u8>, h: (u8, u64, usize), limit: usize) -> (r: Step)
    requires
        h.2 <= limit <= b.len(),
        h.1 < 0x1000_0000,
    ensures
        r.course() == stream_course(b@, (h.0, h.1 as int, h.2 as int), limit as int),
        r matches Step::On(p, _) ==> h.2 <= p <= limit,
{
    if h.0 == STREAM {
        return match find_fields_end(b, h.2, limit) {
            None => Step::Refused,
            Some(e) => if h.1 < 3 {
                Step::Lost
            } else {
                test_parts(b, e, e as u128 + h.1 as u128 - 3, limit)
            },
        };
    }
    if h.1 > (limit - h.2) as u64 {
        return Step::Refused;
    }
    Step::On(h.2 + h.1 as usize, false)
}

/// The descriptors of the box from `q` on. The box ends at `end`, and `found` tells
/// that there was a stream.
pub open spec fn streams_course(b: Seq<u8>, q: int, end: int, found: bool) -> Course
    decreases b.len() - q,
{
    let limit = least(end, b.len() as int);
    if end - q <= 2 {
        if end > b.len() || end < q {
            Course::Refused
        } else if !found {
            Course::Lost
        } else {
            Course::On(end, false)
        }
    } else {
        match head_at(b, q, limit) {
            None => Course::Refused,
            Some(h) => match stream_course(b, h, limit) {
                Course::On(r, _) => if r <= q || r > limit {
                    Course::Refused
                } else {
                    streams_course(b, r, end, found || h.0 == STREAM)
                },
                other => other,
            },
        }
    }
}

/// The box with its `len` bytes at `s`.
pub open spec fn esds_course(b: Seq<u8>, s: int, len: int) -> Course {
    if s + 4 > b.len() {
        Course::Refused
    } else if len < 4 {
        Course::Lost
    } else {
        streams_course(b, s + 4, s + len, false)
    }
}

/// [`esds_course`], computed.
pub fn test_esds(b: &Vec<u8>, s: usize, len: u64) -> (r: Step)
    requires
        s <= b.len(),
    ensures
        r.course() == esds_course(b@, s as int, len as int),
        r matches Step::On(p, _) ==> s <= p <= b.len(),
{
    if b.len() - s < 4 {
        return Step::Refused;
    }
    if len < 4 {
        return Step::Lost;
    }
    let end: u128 = s as u128 + len as u128;
    let limit: usize = if end < b.len() as u128 {
        end as usize
    } else {
        b.len()
    };
    let mut q: usize = s + 4;
    let mut found: bool = false;
    while end - q as u128 > 2
        invariant
            s <= q <= limit,
            end == s + len,
            limit == least(end as int, b@.len() as int),
            esds_course(b@, s as int, len as int) == streams_course(
                b@,
                q as int,
                end as int,
                found,
            ),
        decreases limit - q,
    {
        match read_head(b, q, limit) {
            None => {
                return Step::Refused;
            },
            Some(h) => match test_stream(b, h, limit) {
                Step::On(p, _) => {
                    q = p;
                    found = found || h.0 == STREAM;
                },
                other => {
                    return other;
                },
            },
        }
    }
    if end > b.len() as u128 {
        return Step::Refused;
    }
    if !found {
        return Step::Lost;
    }
    Step::On(end as usize, false)
}

} // verus!
