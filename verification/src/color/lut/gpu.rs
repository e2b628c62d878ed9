//! Preparing a [`Lut`] for the GPU.
//!
//! Two layouts, because the backends do not agree on 3D textures:
//!
//! - native 3D (`N×N×N`): sampled with a linear sampler, which is trilinear
//!   interpolation for free.
//! - tiled 2D (`N×N` cells laid out in a row): the fallback for anything that
//!   cannot sample a 3D texture.
//!
//! Both are built from the same data, so the choice of one over the other does
//! not change the result - only how the shader reads it.

use crate::color::lut;
use crate::color::lut::{Lut, LutData};
use crate::ieee::single::Single;
use vstd::arithmetic::div_mod::*;
use vstd::prelude::*;

verus! {

/// A LUT flattened for upload, in whichever layout the backend can sample.
#[derive(Debug, Clone)]
pub struct LutTexture {
    /// Cube edge length.
    pub size: u32,
    /// Texel data, `RGBA32F`, row-major.
    pub data: Vec<Single>,
    /// Layout of `data`.
    pub layout: LutLayout,
}

/// How the texels are arranged.
#[derive(Debug, Clone, Copy, PartialEq, Eq, Structural)]
pub enum LutLayout {
    /// `size × size × size`, sampled as a 3D texture.
    Volume3D,
    /// `(size * size) × size`, blue slices laid side by side.
    Tiled2D,
}

/// Cube edge the GPU texture is allocated at, regardless of the loaded LUT.
///
/// 65 is the largest of the three sizes in common use (17, 33, 65). A larger
/// table is downsampled to it, and that direction does lose detail.
pub const MAX_LUT_SIZE: usize = 65;

/// Red, green and blue index of the `p`-th texel.
///
/// The volume runs blue-major, the tiled image green-major: one row of it holds
/// the same green across every blue slice.
pub open spec fn cell(layout: LutLayout, n: nat, p: nat) -> (nat, nat, nat) {
    let inner = p % n;
    let middle = (p / n) % n;
    let outer = p / n / n;
    match layout {
        LutLayout::Volume3D => (inner, middle, outer),
        LutLayout::Tiled2D => (inner, outer, middle),
    }
}

/// Place among the texels of the one at the given indices.
pub open spec fn place(layout: LutLayout, n: nat, r: nat, g: nat, b: nat) -> nat {
    match layout {
        LutLayout::Volume3D => r + g * n + b * (n * n),
        LutLayout::Tiled2D => g * (n * n) + b * n + r,
    }
}

/// A cube of colors with edge `n`, flattened: four values per texel, the last
/// of them 1.
pub open spec fn texels(
    layout: LutLayout,
    n: nat,
    color: spec_fn(nat, nat, nat) -> [Single; 3],
) -> Seq<Single> {
    Seq::new(
        4 * (n * n * n),
        |j: int|
            {
                let (r, g, b) = cell(layout, n, (j / 4) as nat);
                if j % 4 == 3 {
                    Single::one()
                } else {
                    color(r, g, b)[j % 4]
                }
            },
    )
}

/// The entries of a cube, by their indices.
pub open spec fn entries(t: lut::Table) -> spec_fn(nat, nat, nat) -> [Single; 3] {
    |r: nat, g: nat, b: nat| t.entry(r, g, b)
}

/// The `i`-th of `n` levels that run from 0 to 1.
pub open spec fn level(i: nat, n: nat) -> Single {
    Single::from_u64(i as u64).over(Single::from_u64((n - 1) as u64))
}

/// Levels as colors: the identity.
pub open spec fn levels(n: nat) -> spec_fn(nat, nat, nat) -> [Single; 3] {
    |r: nat, g: nat, b: nat| [level(r, n), level(g, n), level(b, n)]
}

/// A level mapped back through the domain.
pub open spec fn in_domain(l: Single, min: Single, max: Single) -> Single {
    min.plus(l.times(max.minus(min)))
}

/// A table sampled at `n` levels per channel across its domain.
pub open spec fn resampled(t: lut::Table, n: nat) -> spec_fn(nat, nat, nat) -> [Single; 3] {
    |r: nat, g: nat, b: nat|
        t.sampled(
            [
                in_domain(level(r, n), t.domain_min[0], t.domain_max[0]),
                in_domain(level(g, n), t.domain_min[1], t.domain_max[1]),
                in_domain(level(b, n), t.domain_min[2], t.domain_max[2]),
            ],
        )
}

/// The eight corners of the unit cube as colors.
pub open spec fn corners() -> spec_fn(nat, nat, nat) -> [Single; 3] {
    |r: nat, g: nat, b: nat|
        [Single::from_u64(r as u64), Single::from_u64(g as u64), Single::from_u64(b as u64)]
}

proof fn lemma_cell_in_range(n: nat, p: nat)
    requires
        n > 0,
        p < n * n * n,
    ensures
        p % n < n,
        (p / n) % n < n,
        p / n / n < n,
{
    let q = p / n;
    lemma_fundamental_div_mod(p as int, n as int);
    lemma_fundamental_div_mod(q as int, n as int);
    lemma_mod_bound(p as int, n as int);
    lemma_mod_bound(q as int, n as int);
    let o = q / n;
    assert(o < n) by (nonlinear_arith)
        requires
            p < n * n * n,
            p == n * q + p % n,
            q == n * o + q % n,
            p % n >= 0,
            q % n >= 0,
            n > 0,
            o >= 0,
    ;
}

/// [`cell`], computed.
fn cell_at(layout: LutLayout, n: usize, p: usize) -> (c: (usize, usize, usize))
    requires
        n > 0,
        p < n * n * n,
    ensures
        (c.0 as nat, c.1 as nat, c.2 as nat) == cell(layout, n as nat, p as nat),
        c.0 < n,
        c.1 < n,
        c.2 < n,
{
    proof {
        lemma_cell_in_range(n as nat, p as nat);
    }
    let inner: usize = p % n;
    let middle: usize = (p / n) % n;
    let outer: usize = p / n / n;
    match layout {
        LutLayout::Volume3D => (inner, middle, outer),
        LutLayout::Tiled2D => (inner, outer, middle),
    }
}

/// Appends the `p`-th texel.
fn push_texel(
    out: &mut Vec<Single>,
    c: [Single; 3],
    p: usize,
    Ghost(layout): Ghost<LutLayout>,
    Ghost(n): Ghost<nat>,
    Ghost(color): Ghost<spec_fn(nat, nat, nat) -> [Single; 3]>,
)
    requires
        p < n * n * n,
        old(out)@ == texels(layout, n, color).take(4 * p),
        ({
            let (r, g, b) = cell(layout, n, p as nat);
            c == color(r, g, b)
        }),
    ensures
        final(out)@ == texels(layout, n, color).take(4 * (p + 1)),
{
    let ghost all = texels(layout, n, color);
    out.push(c[0]);
    out.push(c[1]);
    out.push(c[2]);
    out.push(Single::one());
    proof {
        assert((4 * p + 1) / 4 == p && (4 * p + 2) / 4 == p && (4 * p + 3) / 4 == p);
        assert(out@ =~= all.take(4 * (p + 1)));
    }
}

impl LutTexture {
    pub open spec fn spec_width(&self) -> nat {
        match self.layout {
            LutLayout::Volume3D => self.size as nat,
            LutLayout::Tiled2D => self.size as nat * self.size as nat,
        }
    }

    /// Width in texels, for the texture descriptor.
    pub fn width(&self) -> (w: u32)
        requires
            self.spec_width() <= u32::MAX,
        ensures
            w == self.spec_width(),
    {
        match self.layout {
            LutLayout::Volume3D => self.size,
            LutLayout::Tiled2D => self.size * self.size,
        }
    }

    /// Height in texels.
    pub fn height(&self) -> (h: u32)
        ensures
            h == self.size,
    {
        self.size
    }

    pub open spec fn spec_depth(&self) -> nat {
        match self.layout {
            LutLayout::Volume3D => self.size as nat,
            LutLayout::Tiled2D => 1,
        }
    }

    /// Depth in texels - always 1 for the tiled layout.
    pub fn depth(&self) -> (d: u32)
        ensures
            d == self.spec_depth(),
    {
        match self.layout {
            LutLayout::Volume3D => self.size,
            LutLayout::Tiled2D => 1,
        }
    }

    /// Bytes per row, which the upload APIs ask for separately.
    pub fn bytes_per_row(&self) -> (b: u32)
        requires
            16 * self.spec_width() <= u32::MAX,
        ensures
            b == 16 * self.spec_width(),
    {
        self.width() * 4 * 4
    }

    /// Total size in bytes.
    pub fn byte_size(&self) -> (b: usize)
        requires
            4 * self.data@.len() <= usize::MAX,
        ensures
            b == 4 * self.data@.len(),
    {
        self.data.len() * 4
    }
}

/// Builds a native 3D texture payload.
///
/// The `.cube` order - red fastest, then green, then blue - is already the
/// row-major order a 3D texture expects, so this is a straight copy with alpha
/// padded in. A curve has no volume form.
pub fn build_volume(lut: &Lut) -> (r: Option<LutTexture>)
    ensures
        r is Some <==> lut@.cube,
        r matches Some(t) ==> {
            &&& t.size == lut@.size as u32
            &&& t.layout == LutLayout::Volume3D
            &&& t.data@ == lut::padded(lut@.data)
        },
{
    match &lut.data {
        LutData::Lut1D { .. } => None,
        LutData::Lut3D { size, .. } => Some(
            LutTexture {
                size: *size as u32,
                data: lut.to_rgba_f32(),
                layout: LutLayout::Volume3D,
            },
        ),
    }
}

/// Builds a tiled 2D payload, for backends without 3D sampling.
///
/// Slice `b` of the cube occupies the horizontal band `[b*N, (b+1)*N)`, so a
/// shader reads `(r + b*N, g)` and mixes two neighbouring slices to interpolate
/// along blue. A curve has no such form.
pub fn build_tiled(lut: &Lut) -> (r: Option<LutTexture>)
    requires
        lut@.cube ==> lut@.complete() || lut@.size == 0,
    ensures
        r is Some <==> lut@.cube,
        r matches Some(t) ==> {
            &&& t.size == lut@.size as u32
            &&& t.layout == LutLayout::Tiled2D
            &&& t.data@ == texels(LutLayout::Tiled2D, lut@.size, entries(lut@))
        },
{
    match &lut.data {
        LutData::Lut1D { .. } => None,
        LutData::Lut3D { size, data } => {
            let n = *size;
            let ghost color = entries(lut@);
            let ghost layout = LutLayout::Tiled2D;
            proof {
                if n == 0 {
                    assert(n * n * n == 0) by (nonlinear_arith)
                        requires
                            n == 0,
                    ;
                }
                lemma_square_fits(n as nat);
                assert(lut@.size == n && lut@.data == data@);
                assert(n * n * n <= data.len());
            }
            let count: usize = n * n * n;
            let mut out: Vec<Single> = Vec::new();
            let mut p: usize = 0;
            proof {
                assert(out@ =~= texels(layout, n as nat, color).take(0));
            }
            while p < count
                invariant
                    p <= count,
                    count == n * n * n,
                    data.len() >= n * n * n,
                    lut@.data == data@,
                    lut@.size == n,
                    color == entries(lut@),
                    layout == LutLayout::Tiled2D,
                    out@ == texels(layout, n as nat, color).take(4 * p),
                decreases count - p,
            {
                proof {
                    if n == 0 {
                        assert(n * n * n == 0) by (nonlinear_arith)
                            requires
                                n == 0,
                        ;
                    }
                }
                let (r, g, b) = cell_at(LutLayout::Tiled2D, n, p);
                let c = lut::entry_of(n, data, r, g, b);
                push_texel(&mut out, c, p, Ghost(layout), Ghost(n as nat), Ghost(color));
                p = p + 1;
            }
            proof {
                assert(texels(layout, n as nat, color).take(4 * p) =~= texels(layout, n as nat, color));
            }
            Some(LutTexture { size: n as u32, data: out, layout: LutLayout::Tiled2D })
        },
    }
}

proof fn lemma_square_fits(n: nat)
    ensures
        n * n <= n * n * n,
{
    assert(n * n <= n * n * n) by (nonlinear_arith)
        requires
            n >= 0,
    ;
}

/// [`level`], computed for the largest size.
fn level_at(i: usize) -> (l: Single)
    ensures
        l == level(i as nat, MAX_LUT_SIZE as nat),
{
    Single::from_u64(i as u64).over(Single::from_u64(64))
}

impl LutTexture {
    /// Resamples the payload to [`MAX_LUT_SIZE`], for the fixed GPU allocation.
    ///
    /// Each texel is the source sampled at its own position, mapped back through
    /// the domain so that `DOMAIN_MIN`/`DOMAIN_MAX` still apply.
    pub fn resampled_to_max(lut: &Lut, layout: LutLayout) -> (r: Option<LutTexture>)
        requires
            lut@.cube ==> lut@.complete(),
        ensures
            r is Some <==> lut@.cube,
            r matches Some(t) ==> {
                &&& t.size == MAX_LUT_SIZE
                &&& t.layout == layout
                &&& t.data@ == texels(layout, MAX_LUT_SIZE as nat, resampled(lut@, MAX_LUT_SIZE as nat))
            },
    {
        if !lut.is_3d() {
            return None;
        }
        let n: usize = MAX_LUT_SIZE;
        let ghost color = resampled(lut@, n as nat);
        let mut out: Vec<Single> = Vec::new();
        let mut p: usize = 0;
        proof {
            assert(out@ =~= texels(layout, n as nat, color).take(0));
        }
        while p < 274625
            invariant
                p <= 274625,
                n == MAX_LUT_SIZE,
                lut@.complete(),
                color == resampled(lut@, n as nat),
                out@ == texels(layout, n as nat, color).take(4 * p),
            decreases 274625 - p,
        {
            let (r, g, b) = cell_at(layout, n, p);
            let rgb = [
                map_back(level_at(r), lut.domain_min[0], lut.domain_max[0]),
                map_back(level_at(g), lut.domain_min[1], lut.domain_max[1]),
                map_back(level_at(b), lut.domain_min[2], lut.domain_max[2]),
            ];
            let c = lut.sample(rgb);
            push_texel(&mut out, c, p, Ghost(layout), Ghost(n as nat), Ghost(color));
            p = p + 1;
        }
        proof {
            assert(texels(layout, n as nat, color).take(4 * p) =~= texels(layout, n as nat, color));
        }
        Some(LutTexture { size: n as u32, data: out, layout })
    }

    /// An identity LUT at the full allocation size, for when none is loaded.
    pub fn identity_at_max(layout: LutLayout) -> (t: LutTexture)
        ensures
            t.size == MAX_LUT_SIZE,
            t.layout == layout,
            t.data@ == texels(layout, MAX_LUT_SIZE as nat, levels(MAX_LUT_SIZE as nat)),
    {
        let n: usize = MAX_LUT_SIZE;
        let ghost color = levels(n as nat);
        let mut out: Vec<Single> = Vec::new();
        let mut p: usize = 0;
        proof {
            assert(out@ =~= texels(layout, n as nat, color).take(0));
        }
        while p < 274625
            invariant
                p <= 274625,
                n == MAX_LUT_SIZE,
                color == levels(n as nat),
                out@ == texels(layout, n as nat, color).take(4 * p),
            decreases 274625 - p,
        {
            let (r, g, b) = cell_at(layout, n, p);
            let c = [level_at(r), level_at(g), level_at(b)];
            push_texel(&mut out, c, p, Ghost(layout), Ghost(n as nat), Ghost(color));
            p = p + 1;
        }
        proof {
            assert(texels(layout, n as nat, color).take(4 * p) =~= texels(layout, n as nat, color));
        }
        LutTexture { size: n as u32, data: out, layout }
    }

    /// The smallest LUT that changes nothing: the eight corners of the RGB cube.
    ///
    /// Something must always occupy the texture binding; this is what does when
    /// no LUT is loaded.
    pub fn identity(layout: LutLayout) -> (t: LutTexture)
        ensures
            t.size == 2,
            t.layout == layout,
            t.data@ == texels(layout, 2, corners()),
    {
        let ghost color = corners();
        let mut out: Vec<Single> = Vec::new();
        let mut p: usize = 0;
        proof {
            assert(out@ =~= texels(layout, 2, color).take(0));
        }
        while p < 8
            invariant
                p <= 8,
                color == corners(),
                out@ == texels(layout, 2, color).take(4 * p),
            decreases 8 - p,
        {
            let (r, g, b) = cell_at(layout, 2, p);
            let c = [Single::from_u64(r as u64), Single::from_u64(g as u64), Single::from_u64(b as u64)];
            push_texel(&mut out, c, p, Ghost(layout), Ghost(2), Ghost(color));
            p = p + 1;
        }
        proof {
            assert(texels(layout, 2, color).take(4 * p) =~= texels(layout, 2, color));
        }
        LutTexture { size: 2, data: out, layout }
    }
}

/// [`in_domain`], computed.
fn map_back(l: Single, min: Single, max: Single) -> (r: Single)
    ensures
        r == in_domain(l, min, max),
{
    min.plus(l.times(max.minus(min)))
}

} // verus!
