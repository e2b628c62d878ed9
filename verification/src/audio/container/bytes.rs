//! Numbers in the bytes of a file.

use vstd::prelude::*;

verus! {

/// Number in two bytes, most significant first.
pub open spec fn be16(b: Seq<u8>, i: int) -> int {
    b[i] * 0x100 + b[i + 1]
}

/// Number in four bytes, most significant first.
pub open spec fn be32(b: Seq<u8>, i: int) -> int {
    b[i] * 0x100_0000 + b[i + 1] * 0x1_0000 + b[i + 2] * 0x100 + b[i + 3]
}

/// Number in eight bytes, most significant first.
pub open spec fn be64(b: Seq<u8>, i: int) -> int {
    be32(b, i) * 0x1_0000_0000 + be32(b, i + 4)
}

/// Number in two bytes, least significant first.
pub open spec fn le16(b: Seq<u8>, i: int) -> int {
    b[i] + b[i + 1] * 0x100
}

/// Number in four bytes, least significant first.
pub open spec fn le32(b: Seq<u8>, i: int) -> int {
    le16(b, i) + le16(b, i + 2) * 0x1_0000
}

pub fn read_be16(b: &Vec<u8>, i: usize) -> (r: u64)
    requires
        i + 2 <= b.len(),
    ensures
        r == be16(b@, i as int),
        r < 0x1_0000,
{
    b[i] as u64 * 0x100 + b[i + 1] as u64
}

pub fn read_be32(b: &Vec<u8>, i: usize) -> (r: u64)
    requires
        i + 4 <= b.len(),
    ensures
        r == be32(b@, i as int),
        r < 0x1_0000_0000,
{
    b[i] as u64 * 0x100_0000 + b[i + 1] as u64 * 0x1_0000 + b[i + 2] as u64 * 0x100 + b[i
        + 3] as u64
}

pub fn read_be64(b: &Vec<u8>, i: usize) -> (r: u64)
    requires
        i + 8 <= b.len(),
    ensures
        r == be64(b@, i as int),
{
    read_be32(b, i) * 0x1_0000_0000 + read_be32(b, i + 4)
}

pub fn read_le16(b: &Vec<u8>, i: usize) -> (r: u64)
    requires
        i + 2 <= b.len(),
    ensures
        r == le16(b@, i as int),
        r < 0x1_0000,
{
    b[i] as u64 + b[i + 1] as u64 * 0x100
}

pub fn read_le32(b: &Vec<u8>, i: usize) -> (r: u64)
    requires
        i + 4 <= b.len(),
    ensures
        r == le32(b@, i as int),
        r < 0x1_0000_0000,
{
    read_le16(b, i) + read_le16(b, i + 2) * 0x1_0000
}

/// How far the reader of a container gets with a part of its headers.
pub ghost enum Course {
    /// Through, up to this place. The flag tells that the time scale of a track
    /// there is 0.
    On(int, bool),
    /// It answers with an error.
    Refused,
    /// It asks for a buffer or a table that is longer than the file.
    Cut,
    /// It does not survive.
    Lost,
}

/// [`Course`], computed.
#[derive(Debug, Clone, Copy)]
pub enum Step {
    On(usize, bool),
    Refused,
    Cut,
    Lost,
}

impl Step {
    pub open spec fn course(self) -> Course {
        match self {
            Step::On(p, t) => Course::On(p as int, t),
            Step::Refused => Course::Refused,
            Step::Cut => Course::Cut,
            Step::Lost => Course::Lost,
        }
    }
}

} // verus!
