//! Turning the six faces of a block texture into the voxels of a cube.
use vstd::prelude::*;
use crate::vox::VoxPoint;

verus! {

/// Side of a face of the cube, in pixels and in voxels.
pub const FACE_SIDE: u32 = 16;

/// Width of the strip holding the six faces side by side.
pub const STRIP_WIDTH: u32 = 96;

/// Position of a tile in the texture sheet, in tiles.
#[derive(Debug, Clone, Copy, PartialEq, Eq, Structural)]
pub struct Uv(pub u32, pub u32);

/// How the six faces of a block are taken from the texture sheet.
#[derive(Debug, Clone, Copy)]
pub enum Method {
    /// The same tile on every face.
    Single(Uv),
    /// One tile per face: top, the four sides, bottom.
    Cubemap([Uv; 6]),
}

impl Method {
    /// A cube whose four sides show the same tile.
    pub fn equal_sides(top: Uv, bottom: Uv, side: Uv) -> (r: Self)
        ensures
            r matches Method::Cubemap(uvs) && uvs@ == seq![top, side, side, side, side, bottom],
    {
        let r = Method::Cubemap([top, side, side, side, side, bottom]);
        proof {
            if let Method::Cubemap(uvs) = r {
                assert(uvs@ =~= seq![top, side, side, side, side, bottom]);
            }
        }
        r
    }

    /// The tile shown on face `z` (`0..6`, in the order of a cubemap).
    pub open spec fn face_spec(self, z: int) -> Uv {
        match self {
            Method::Single(uv) => uv,
            Method::Cubemap(uvs) => uvs@[z],
        }
    }

    /// The tile shown on face `z`.
    pub fn face(&self, z: usize) -> (r: Uv)
        requires
            z < 6,
        ensures
            r == self.face_spec(z as int),
    {
        match self {
            Method::Single(uv) => *uv,
            Method::Cubemap(uvs) => uvs[z],
        }
    }
}


/// An RGBA colour.
#[derive(Debug, Clone, Copy, PartialEq, Eq, Structural)]
pub struct PaletteColor {
    pub r: u8,
    pub g: u8,
    pub b: u8,
    pub a: u8,
}

/// The pixel at column `u` and row `v` of the strip of six faces, stored row
/// after row.
pub open spec fn pixel(img: Seq<PaletteColor>, u: int, v: int) -> PaletteColor {
    img[u + v * 96]
}

/// The pixel looked at in step `i` of the scan of the strip: face by face,
/// then column by column, then row by row.
pub open spec fn scanned(img: Seq<PaletteColor>, i: int) -> PaletteColor {
    pixel(img, (i / 256) * 16 + (i / 16) % 16, i % 16)
}

/// The distinct colours of the first `n` scanned pixels, in the order they
/// are first met.
pub open spec fn palette_upto(img: Seq<PaletteColor>, n: int) -> Seq<PaletteColor>
    decreases n,
{
    if n <= 0 {
        Seq::empty()
    } else {
        let p = palette_upto(img, n - 1);
        let c = scanned(img, n - 1);
        if p.contains(c) {
            p
        } else {
            p.push(c)
        }
    }
}

/// The pixel shown on the cube at voxel `(x, y, z)` of its surface: the face
/// written last among those holding it (`+y`, `+x`, `+z`, `-x`, `-z`, `-y`,
/// in that order of precedence), at the column and row the face maps it to.
pub open spec fn surface_pixel(img: Seq<PaletteColor>, x: int, y: int, z: int) -> PaletteColor {
    if z == 0 {
        pixel(img, x, y)
    } else if x == 0 {
        pixel(img, y + 16, z)
    } else if y == 0 {
        pixel(img, x + 32, z)
    } else if x == 15 {
        pixel(img, y + 48, z)
    } else if y == 15 {
        pixel(img, x + 64, z)
    } else {
        pixel(img, x + 80, y)
    }
}

/// Whether voxel `(x, y, z)` lies on the surface of the cube.
pub open spec fn on_surface(x: int, y: int, z: int) -> bool {
    x == 0 || y == 0 || z == 0 || x == 15 || y == 15 || z == 15
}

/// Voxel `m` of the cube (in the order `x`, then `y`, then `z` fastest)
/// with the palette index of its pixel, if it lies on the surface.
pub open spec fn surface_voxel_at(img: Seq<PaletteColor>, pal: Seq<PaletteColor>, m: int) -> Option<VoxPoint> {
    let (x, y, z) = (m / 256, (m / 16) % 16, m % 16);
    if on_surface(x, y, z) {
        Some(VoxPoint { x: x as u8, y: y as u8, z: z as u8, i: pal.index_of(surface_pixel(img, x, y, z)) as u8 })
    } else {
        None
    }
}

/// The voxels of the surface among the first `n` voxels of the cube, each
/// with the palette index of its pixel.
pub open spec fn surface_upto(img: Seq<PaletteColor>, pal: Seq<PaletteColor>, n: int) -> Seq<VoxPoint>
    decreases n,
{
    if n <= 0 {
        Seq::empty()
    } else {
        let prev = surface_upto(img, pal, n - 1);
        match surface_voxel_at(img, pal, n - 1) {
            Some(v) => prev.push(v),
            None => prev,
        }
    }
}

/// The voxels of a cube textured with a strip of six faces, and its palette.
#[derive(Debug, Clone)]
pub struct CubeVox {
    pub palette: Vec<PaletteColor>,
    pub voxels: Vec<VoxPoint>,
}

/// The index of colour `c` in the palette, if it is there.
fn palette_index(pal: &Vec<PaletteColor>, c: PaletteColor) -> (r: Option<usize>)
    requires
        pal@.no_duplicates(),
    ensures
        match r {
            Some(i) => i < pal@.len() && pal@[i as int] == c && pal@.index_of(c) == i,
            None => !pal@.contains(c),
        },
{
    let mut i: usize = 0;
    while i < pal.len()
        invariant
            i <= pal@.len(),
            pal@.no_duplicates(),
            forall|j: int| 0 <= j < i ==> pal@[j] != c,
        decreases pal.len() - i,
    {
        if pal[i] == c {
            proof {
                assert(pal@[i as int] == c);
                assert(pal@.contains(c));
                let k = pal@.index_of(c);
                assert(0 <= k < pal@.len() && pal@[k] == c);
            }
            return Some(i);
        }
        i = i + 1;
    }
    None
}

/// The voxels of the cube whose faces show the strip `img` (96 by 16
/// pixels, row after row), with its palette: the distinct colours in the
/// order the scan meets them. Nothing when the strip holds more than 255
/// colours.
pub fn img_to_vox(img: &Vec<PaletteColor>) -> (r: Option<CubeVox>)
    requires
        img@.len() == 1536,
    ensures
        match r {
            Some(v) => v.palette@ == palette_upto(img@, 1536) && v.palette@.len() <= 255 && v.voxels@
                == surface_upto(img@, palette_upto(img@, 1536), 4096) && forall|k: int|
                0 <= k < v.voxels@.len() ==> shows_strip(img@, v.palette@, #[trigger] v.voxels@[k]),
            None => palette_upto(img@, 1536).len() > 255,
        },
{
    let mut pal: Vec<PaletteColor> = Vec::new();
    let mut i: usize = 0;
    while i < 1536
        invariant
            i <= 1536,
            img@.len() == 1536,
            pal@ == palette_upto(img@, i as int),
            pal@.no_duplicates(),
        decreases 1536 - i,
    {
        let z = i / 256;
        let x = (i / 16) % 16;
        let y = i % 16;
        let c = img[x + z * 16 + y * 96];
        proof {
            assert(c == scanned(img@, i as int));
        }
        match palette_index(&pal, c) {
            Some(_) => {},
            None => {
                let ghost p0 = pal@;
                pal.push(c);
                proof {
                    assert forall|a: int, b: int| 0 <= a < b < pal@.len() implies pal@[a] != pal@[b] by {
                        if b == p0.len() {
                            assert(p0[a] == pal@[a]);
                        }
                    }
                }
            },
        }
        i = i + 1;
    }
    if pal.len() > 255 {
        return None;
    }
    let mut voxels: Vec<VoxPoint> = Vec::new();
    let mut n: usize = 0;
    while n < 4096
        invariant
            n <= 4096,
            img@.len() == 1536,
            pal@ == palette_upto(img@, 1536),
            pal@.no_duplicates(),
            pal@.len() <= 255,
            voxels@ == surface_upto(img@, pal@, n as int),
        decreases 4096 - n,
    {
        match surface_voxel(img, &pal, n) {
            Some(v) => voxels.push(v),
            None => {},
        }
        n = n + 1;
    }
    let r = CubeVox { palette: pal, voxels };
    proof {
        law_cube_shows_the_strip(img@, r);
    }
    Some(r)
}

/// Voxel `n` of the cube with the palette index of its pixel, if it lies on
/// the surface.
fn surface_voxel(img: &Vec<PaletteColor>, pal: &Vec<PaletteColor>, n: usize) -> (r: Option<VoxPoint>)
    requires
        n < 4096,
        img@.len() == 1536,
        pal@ == palette_upto(img@, 1536),
        pal@.no_duplicates(),
        pal@.len() <= 255,
    ensures
        r == surface_voxel_at(img@, pal@, n as int),
{
    let x = n / 256;
    let y = (n / 16) % 16;
    let z = n % 16;
    if x == 0 || y == 0 || z == 0 || x == 15 || y == 15 || z == 15 {
        let (u, v) = if z == 0 {
            (x, y)
        } else if x == 0 {
            (y + 16, z)
        } else if y == 0 {
            (x + 32, z)
        } else if x == 15 {
            (y + 48, z)
        } else if y == 15 {
            (x + 64, z)
        } else {
            (x + 80, y)
        };
        let c = img[u + v * 96];
        proof {
            assert(c == surface_pixel(img@, x as int, y as int, z as int));
            let i = (u / 16) * 256 + (u % 16) * 16 + v;
            assert((i / 256) * 16 + (i / 16) % 16 == u && i % 16 == v);
            lemma_palette_covers(img@, 1536, i);
        }
        let id = match palette_index(pal, c) {
            Some(k) => k as u8,
            None => {
                proof {
                    assert(false);
                }
                0
            },
        };
        Some(VoxPoint { x: x as u8, y: y as u8, z: z as u8, i: id })
    } else {
        None
    }
}

/// Every scanned pixel's colour is in the palette of the scan.
proof fn lemma_palette_covers(img: Seq<PaletteColor>, n: int, i: int)
    requires
        0 <= i < n,
    ensures
        palette_upto(img, n).contains(scanned(img, i)),
    decreases n,
{
    if i < n - 1 {
        lemma_palette_covers(img, n - 1, i);
        let p = palette_upto(img, n - 1);
        if !p.contains(scanned(img, n - 1)) {
            let j = choose|j: int| 0 <= j < p.len() && p[j] == scanned(img, i);
            assert(p.push(scanned(img, n - 1))[j] == scanned(img, i));
        }
    } else {
        let p = palette_upto(img, n - 1);
        if !p.contains(scanned(img, n - 1)) {
            assert(p.push(scanned(img, n - 1))[p.len() as int] == scanned(img, i));
        }
    }
}

} // verus!

verus! {

/// The colour the strip shows at voxel `(x, y, z)` of the cube is right: on
/// the face `z == 0` the pixel at column `x`, row `y`; on `x == 0` (off the
/// faces written after it) the pixel at column `y + 16`, row `z`; on `y == 0`
/// column `x + 32`; on `x == 15` column `y + 48`; on `y == 15` column
/// `x + 64` (all at row `z`); on `z == 15` column `x + 80`, row `y`.
pub open spec fn shows_strip(img: Seq<PaletteColor>, pal: Seq<PaletteColor>, p: VoxPoint) -> bool {
    let (x, y, z) = (p.x as int, p.y as int, p.z as int);
    let c = pal[p.i as int];
    &&& x < 16 && y < 16 && z < 16
    &&& (p.i as int) < pal.len()
    &&& z == 0 ==> c == img[x + y * 96]
    &&& z != 0 && x == 0 ==> c == img[(y + 16) + z * 96]
    &&& z != 0 && x != 0 && y == 0 ==> c == img[(x + 32) + z * 96]
    &&& z != 0 && y != 0 && x == 15 ==> c == img[(y + 48) + z * 96]
    &&& z != 0 && x != 0 && x != 15 && y == 15 ==> c == img[(x + 64) + z * 96]
    &&& z == 15 && x != 0 && x != 15 && y != 0 && y != 15 ==> c == img[(x + 80) + y * 96]
    &&& x == 0 || x == 15 || y == 0 || y == 15 || z == 0 || z == 15
}

proof fn lemma_surface_shows_strip(img: Seq<PaletteColor>, n: int)
    requires
        img.len() == 1536,
        0 <= n <= 4096,
        palette_upto(img, 1536).len() <= 255,
    ensures
        forall|k: int|
            0 <= k < surface_upto(img, palette_upto(img, 1536), n).len() ==> shows_strip(
                img,
                palette_upto(img, 1536),
                #[trigger] surface_upto(img, palette_upto(img, 1536), n)[k],
            ),
    decreases n,
{
    let pal = palette_upto(img, 1536);
    if n > 0 {
        lemma_surface_shows_strip(img, n - 1);
        let prev = surface_upto(img, pal, n - 1);
        let cur = surface_upto(img, pal, n);
        let m = n - 1;
        let (x, y, z) = (m / 256, (m / 16) % 16, m % 16);
        if on_surface(x, y, z) {
            let (u, v) = if z == 0 {
                (x, y)
            } else if x == 0 {
                (y + 16, z)
            } else if y == 0 {
                (x + 32, z)
            } else if x == 15 {
                (y + 48, z)
            } else if y == 15 {
                (x + 64, z)
            } else {
                (x + 80, y)
            };
            assert(surface_pixel(img, x, y, z) == img[u + v * 96]);
            let i = (u / 16) * 256 + (u % 16) * 16 + v;
            assert((i / 256) * 16 + (i / 16) % 16 == u && i % 16 == v);
            lemma_palette_covers(img, 1536, i);
            assert(pal.contains(surface_pixel(img, x, y, z)));
            let c = surface_pixel(img, x, y, z);
            assert(0 <= pal.index_of(c) < pal.len() && pal[pal.index_of(c)] == c);
            let pt = surface_voxel_at(img, pal, m).unwrap();
            assert(shows_strip(img, pal, pt));
            assert(cur == prev.push(pt));
        }
        assert forall|k: int| 0 <= k < cur.len() implies shows_strip(img, pal, #[trigger] cur[k]) by {
            if k < prev.len() {
                assert(cur[k] == prev[k]);
            }
        }
    }
}

/// Every voxel of the cube that `img_to_vox` makes shows the strip as the
/// faces map it (see [`shows_strip`]).
pub proof fn law_cube_shows_the_strip(img: Seq<PaletteColor>, v: CubeVox)
    requires
        img.len() == 1536,
        v.palette@ == palette_upto(img, 1536),
        v.palette@.len() <= 255,
        v.voxels@ == surface_upto(img, palette_upto(img, 1536), 4096),
    ensures
        forall|k: int| 0 <= k < v.voxels@.len() ==> shows_strip(img, v.palette@, #[trigger] v.voxels@[k]),
{
    lemma_surface_shows_strip(img, 4096);
}

} // verus!
