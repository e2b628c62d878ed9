//! Color conversion LUTs in the Adobe Cube (`.cube`) format.
//!
//! In a `.cube` file the red index varies fastest, then green, then blue.
//! Sampling works in float throughout: a log to display conversion shows
//! banding at once when it is applied at the output bit depth.

pub mod domain;
pub mod gpu;
pub mod identity;
pub mod interpolation;
pub mod laws;
pub mod linear;
pub mod parser;
pub mod refinement;
pub mod resampling;
pub mod written;

pub use crate::color::lut::gpu::{build_tiled, build_volume, LutLayout, LutTexture};
pub use crate::color::lut::parser::{parse_cube, parse_cube_str, LutParseError};

use crate::ieee::single::Single;
use vstd::prelude::*;

verus! {

/// Table payload, either a per-channel curve or a full color cube.
#[derive(Debug, Clone, PartialEq)]
pub enum LutData {
    /// Per-channel curve: `size` entries, each mapping one input level.
    Lut1D {
        /// Number of entries.
        size: usize,
        /// `size` RGB triplets.
        data: Vec<[Single; 3]>,
    },
    /// Color cube: `size³` entries, red index varying fastest.
    Lut3D {
        /// Cube edge length (17, 33 and 65 are the usual values).
        size: usize,
        /// `size³` RGB triplets, indexed `r + g * size + b * size²`.
        data: Vec<[Single; 3]>,
    },
}

/// A parsed `.cube` file.
#[derive(Debug, Clone, PartialEq)]
pub struct Lut {
    /// Where it was loaded from, so a project can reload it later.
    pub path: String,
    /// `TITLE` field, when the file declares one.
    pub title: Option<String>,
    /// Lower bound of the input domain, per channel.
    pub domain_min: [Single; 3],
    /// Upper bound of the input domain, per channel.
    pub domain_max: [Single; 3],
    /// The table itself.
    pub data: LutData,
}

/// What a [`Lut`] holds.
pub ghost struct Table {
    pub path: Seq<char>,
    pub title: Option<Seq<char>>,
    pub domain_min: [Single; 3],
    pub domain_max: [Single; 3],
    pub cube: bool,
    pub size: nat,
    pub data: Seq<[Single; 3]>,
}

impl View for Lut {
    type V = Table;

    open spec fn view(&self) -> Table {
        Table {
            path: self.path@,
            title: match self.title {
                Some(t) => Some(t@),
                None => None,
            },
            domain_min: self.domain_min,
            domain_max: self.domain_max,
            cube: self.data is Lut3D,
            size: match self.data {
                LutData::Lut1D { size, .. } => size as nat,
                LutData::Lut3D { size, .. } => size as nat,
            },
            data: match self.data {
                LutData::Lut1D { data, .. } => data@,
                LutData::Lut3D { data, .. } => data@,
            },
        }
    }
}

/// Bits of the gap between 1.0 and the next larger value.
pub const EPSILON: u32 = 0x3400_0000;

/// `a` and `b` mixed, `f` of the way from one to the other.
pub open spec fn mixed(a: Single, b: Single, f: Single) -> Single {
    a.times(Single::one().minus(f)).plus(b.times(f))
}

/// [`mixed`], computed.
fn mix(a: Single, b: Single, f: Single) -> (r: Single)
    ensures
        r == mixed(a, b, f),
{
    a.times(Single::one().minus(f)).plus(b.times(f))
}

/// Where a channel value lies in its domain, from 0 at the lower end to 1 at
/// the upper; what lies outside is held at the ends.
pub open spec fn placed(v: Single, min: Single, max: Single) -> Single {
    let span = max.minus(min);
    if span.magnitude().less(Single { bits: EPSILON }) {
        Single::zero()
    } else {
        v.minus(min).over(span).clamped(Single::zero(), Single::one())
    }
}

/// The entry at or below a position, of entries `0..=last`.
pub open spec fn entry_below(x: Single, last: nat) -> nat {
    if x.trunc_u64() < last {
        x.trunc_u64() as nat
    } else {
        last
    }
}

/// The entry after `i`, of entries `0..=last`.
pub open spec fn entry_after(i: nat, last: nat) -> nat {
    if i + 1 < last {
        i + 1
    } else {
        last
    }
}

/// A position between two entries: both entries and how far past the first.
pub ghost struct Between {
    pub low: nat,
    pub high: nat,
    pub past: Single,
}

pub open spec fn between(x: Single, last: nat) -> Between {
    let low = entry_below(x, last);
    Between { low, high: entry_after(low, last), past: x.minus(Single::from_u64(low as u64)) }
}

/// A [`Between`], computed.
struct Step {
    low: usize,
    high: usize,
    past: Single,
}

/// [`between`], computed.
fn step(x: Single, last: usize) -> (r: Step)
    requires
        last < usize::MAX,
    ensures
        (Between { low: r.low as nat, high: r.high as nat, past: r.past }) == between(
            x,
            last as nat,
        ),
        r.low <= last,
        r.high <= last,
{
    let t = x.trunc_u64();
    let low: usize = if t < last as u64 {
        t as usize
    } else {
        last
    };
    let high: usize = if low + 1 < last {
        low + 1
    } else {
        last
    };
    Step { low, high, past: x.minus(Single::from_u64(low as u64)) }
}

impl Table {
    /// Every entry that the size calls for is there, and at least one is.
    pub open spec fn complete(self) -> bool {
        &&& self.size > 0
        &&& self.data.len() >= if self.cube {
            self.size * self.size * self.size
        } else {
            self.size
        }
    }

    /// Position of a color in the declared domain, per channel.
    pub open spec fn normalized(self, rgb: [Single; 3]) -> [Single; 3] {
        [
            placed(rgb[0], self.domain_min[0], self.domain_max[0]),
            placed(rgb[1], self.domain_min[1], self.domain_max[1]),
            placed(rgb[2], self.domain_min[2], self.domain_max[2]),
        ]
    }

    /// The entry of a cube at the given indices: red varies fastest, then
    /// green, then blue.
    pub open spec fn entry(self, r: nat, g: nat, b: nat) -> [Single; 3] {
        self.data[(r + g * self.size + b * (self.size * self.size)) as int]
    }

    /// One channel of a curve at a position from 0 to 1.
    pub open spec fn curve_at(self, p: Single, ch: int) -> Single {
        let last = Single::from_u64(self.size as u64).minus(Single::one());
        let x = between(p.times(last), (self.size - 1) as nat);
        mixed(self.data[x.low as int][ch], self.data[x.high as int][ch], x.past)
    }

    /// One channel of a cube at a position from 0 to 1 on each axis: the eight
    /// surrounding entries mixed along red, then green, then blue.
    pub open spec fn cube_at(self, p: [Single; 3], ch: int) -> Single {
        let last = (self.size - 1) as nat;
        let edge = Single::from_u64(last as u64);
        let x = between(p[0].times(edge), last);
        let y = between(p[1].times(edge), last);
        let z = between(p[2].times(edge), last);
        let c00 = mixed(self.entry(x.low, y.low, z.low)[ch], self.entry(x.high, y.low, z.low)[ch], x.past);
        let c10 = mixed(self.entry(x.low, y.high, z.low)[ch], self.entry(x.high, y.high, z.low)[ch], x.past);
        let c01 = mixed(self.entry(x.low, y.low, z.high)[ch], self.entry(x.high, y.low, z.high)[ch], x.past);
        let c11 = mixed(self.entry(x.low, y.high, z.high)[ch], self.entry(x.high, y.high, z.high)[ch], x.past);
        mixed(mixed(c00, c10, y.past), mixed(c01, c11, y.past), z.past)
    }

    /// The color that the table gives for a color.
    pub open spec fn sampled(self, rgb: [Single; 3]) -> [Single; 3] {
        let p = self.normalized(rgb);
        if self.cube {
            [self.cube_at(p, 0), self.cube_at(p, 1), self.cube_at(p, 2)]
        } else {
            [self.curve_at(p[0], 0), self.curve_at(p[1], 1), self.curve_at(p[2], 2)]
        }
    }
}

/// An entry of a cube lies within the table.
pub proof fn lemma_entry_in_range(n: nat, r: nat, g: nat, b: nat)
    requires
        r < n,
        g < n,
        b < n,
    ensures
        r + g * n + b * (n * n) < n * n * n,
        g * n <= n * n,
        b * (n * n) <= n * n * n,
{
    assert(g * n + n <= n * n) by (nonlinear_arith)
        requires
            g + 1 <= n,
    ;
    let m = n * n;
    assert(b * m + m <= n * m) by (nonlinear_arith)
        requires
            b + 1 <= n,
            m >= 0,
    ;
    assert(n * m == n * n * n) by (nonlinear_arith)
        requires
            m == n * n,
    ;
}

impl Lut {
    /// Cube edge length for a 3D table, or entry count for a 1D one.
    pub fn size(&self) -> (n: usize)
        ensures
            n == self@.size,
    {
        match &self.data {
            LutData::Lut1D { size, .. } => *size,
            LutData::Lut3D { size, .. } => *size,
        }
    }

    /// Whether this is a 3D table - the case the GPU path targets.
    pub fn is_3d(&self) -> (b: bool)
        ensures
            b == self@.cube,
    {
        match &self.data {
            LutData::Lut1D { .. } => false,
            LutData::Lut3D { .. } => true,
        }
    }

    fn place(v: Single, min: Single, max: Single) -> (r: Single)
        ensures
            r == placed(v, min, max),
    {
        let span = max.minus(min);
        if span.magnitude().less(Single { bits: EPSILON }) {
            Single::zero()
        } else {
            v.minus(min).over(span).clamped(Single::zero(), Single::one())
        }
    }

    /// Maps a color into the declared domain, as a 0..1 position in the table.
    ///
    /// A LUT is not required to cover 0..1: `DOMAIN_MIN`/`DOMAIN_MAX` may narrow
    /// or widen it.
    pub fn normalize(&self, rgb: [Single; 3]) -> (r: [Single; 3])
        ensures
            r == self@.normalized(rgb),
    {
        [
            Lut::place(rgb[0], self.domain_min[0], self.domain_max[0]),
            Lut::place(rgb[1], self.domain_min[1], self.domain_max[1]),
            Lut::place(rgb[2], self.domain_min[2], self.domain_max[2]),
        ]
    }

    /// Samples the table with linear interpolation, trilinear for a cube.
    ///
    /// This mirrors what the GPU does with a linear sampler on a 3D texture.
    pub fn sample(&self, rgb: [Single; 3]) -> (r: [Single; 3])
        requires
            self@.complete(),
        ensures
            r == self@.sampled(rgb),
    {
        let p = self.normalize(rgb);
        match &self.data {
            LutData::Lut1D { size, data } => sample_curve(*size, data, p, Ghost(self@)),
            LutData::Lut3D { size, data } => sample_cube(*size, data, p, Ghost(self@)),
        }
    }

    /// Flattens the table into `RGBA32F` texels for upload as a 3D texture,
    /// alpha padded to 1.0.
    pub fn to_rgba_f32(&self) -> (out: Vec<Single>)
        ensures
            out@ == padded(self@.data),
    {
        let data: &Vec<[Single; 3]> = match &self.data {
            LutData::Lut1D { data, .. } => data,
            LutData::Lut3D { data, .. } => data,
        };
        let mut out: Vec<Single> = Vec::new();
        let mut i: usize = 0;
        while i < data.len()
            invariant
                i <= data.len(),
                data@ == self@.data,
                out.len() == 4 * i,
                forall|j: int| 0 <= j < out.len() ==> #[trigger] out@[j] == padded(self@.data)[j],
            decreases data.len() - i,
        {
            let texel = data[i];
            out.push(texel[0]);
            out.push(texel[1]);
            out.push(texel[2]);
            out.push(Single::one());
            i = i + 1;
        }
        proof {
            assert(out@ =~= padded(self@.data));
        }
        out
    }
}

/// Triplets in a row, each followed by 1.
pub open spec fn padded(data: Seq<[Single; 3]>) -> Seq<Single> {
    Seq::new(
        4 * data.len(),
        |j: int|
            if j % 4 == 3 {
                Single::one()
            } else {
                data[j / 4][j % 4]
            },
    )
}

fn curve_value(data: &Vec<[Single; 3]>, s: &Step, ch: usize) -> (r: Single)
    requires
        s.low < data.len(),
        s.high < data.len(),
        ch < 3,
    ensures
        r == mixed(data@[s.low as int][ch as int], data@[s.high as int][ch as int], s.past),
{
    mix(data[s.low][ch], data[s.high][ch], s.past)
}

fn sample_curve(size: usize, data: &Vec<[Single; 3]>, p: [Single; 3], Ghost(t): Ghost<Table>) -> (r:
    [Single; 3])
    requires
        t.complete(),
        !t.cube,
        t.size == size,
        t.data == data@,
    ensures
        r == [t.curve_at(p[0], 0), t.curve_at(p[1], 1), t.curve_at(p[2], 2)],
{
    let last = Single::from_u64(size as u64).minus(Single::one());
    let x = step(p[0].times(last), size - 1);
    let y = step(p[1].times(last), size - 1);
    let z = step(p[2].times(last), size - 1);
    [curve_value(data, &x, 0), curve_value(data, &y, 1), curve_value(data, &z, 2)]
}

pub(crate) fn entry_of(n: usize, data: &Vec<[Single; 3]>, r: usize, g: usize, b: usize) -> (c: [Single; 3])
    requires
        r < n,
        g < n,
        b < n,
        data.len() >= n * n * n,
    ensures
        c == data@[(r + g * n + b * (n * n)) as int],
{
    proof {
        lemma_entry_in_range(n as nat, r as nat, g as nat, b as nat);
        assert(n * n <= n * n * n) by (nonlinear_arith)
            requires
                n >= 1,
        ;
    }
    data[r + g * n + b * (n * n)]
}

/// The eight entries around a position.
struct Corners {
    c000: [Single; 3],
    c100: [Single; 3],
    c010: [Single; 3],
    c110: [Single; 3],
    c001: [Single; 3],
    c101: [Single; 3],
    c011: [Single; 3],
    c111: [Single; 3],
}

fn mix_corners(c: &Corners, x: Single, y: Single, z: Single, ch: usize) -> (r: Single)
    requires
        ch < 3,
    ensures
        ({
            let i = ch as int;
            r == mixed(
                mixed(mixed(c.c000[i], c.c100[i], x), mixed(c.c010[i], c.c110[i], x), y),
                mixed(mixed(c.c001[i], c.c101[i], x), mixed(c.c011[i], c.c111[i], x), y),
                z,
            )
        }),
{
    let c00 = mix(c.c000[ch], c.c100[ch], x);
    let c10 = mix(c.c010[ch], c.c110[ch], x);
    let c01 = mix(c.c001[ch], c.c101[ch], x);
    let c11 = mix(c.c011[ch], c.c111[ch], x);
    mix(mix(c00, c10, y), mix(c01, c11, y), z)
}

fn sample_cube(size: usize, data: &Vec<[Single; 3]>, p: [Single; 3], Ghost(t): Ghost<Table>) -> (r:
    [Single; 3])
    requires
        t.complete(),
        t.cube,
        t.size == size,
        t.data == data@,
    ensures
        r == [t.cube_at(p, 0), t.cube_at(p, 1), t.cube_at(p, 2)],
{
    let last: usize = size - 1;
    let edge = Single::from_u64(last as u64);
    let x = step(p[0].times(edge), last);
    let y = step(p[1].times(edge), last);
    let z = step(p[2].times(edge), last);
    let c = Corners {
        c000: entry_of(size, data, x.low, y.low, z.low),
        c100: entry_of(size, data, x.high, y.low, z.low),
        c010: entry_of(size, data, x.low, y.high, z.low),
        c110: entry_of(size, data, x.high, y.high, z.low),
        c001: entry_of(size, data, x.low, y.low, z.high),
        c101: entry_of(size, data, x.high, y.low, z.high),
        c011: entry_of(size, data, x.low, y.high, z.high),
        c111: entry_of(size, data, x.high, y.high, z.high),
    };
    [
        mix_corners(&c, x.past, y.past, z.past, 0),
        mix_corners(&c, x.past, y.past, z.past, 1),
        mix_corners(&c, x.past, y.past, z.past, 2),
    ]
}

} // verus!
