//! The voxel grids sent to the renderer: a cube of voxels of any side, and
//! the hierarchy of levels of the voxel engine.
use vstd::prelude::*;
use vstd::arithmetic::power2::pow2;
use crate::ivec::IVec3;
use crate::vox::{VoxModel, VoxPoint};

verus! {

/// Flag of a voxel that collides.
pub const COLLISION_FLAG: u8 = 16;

/// A cube of `size` voxels along each side, four bytes per voxel
/// (identifier, flags, then two unused bytes).
#[derive(Debug, Clone)]
pub struct Grid {
    pub size: u32,
    pub voxels: Vec<u8>,
}

/// A side whose cube of four-byte voxels fits the integer types.
pub open spec fn side_ok(size: u32) -> bool {
    size * size * size * 4 <= 0x7fff_ffff
}

/// Index of the voxel at `(x, y, z)` in a cube of side `s`.
pub open spec fn cube_index(s: int, x: int, y: int, z: int) -> int {
    x * s * s + y * s + z
}

/// Position of the voxel at index `i` of a cube of side `s`.
pub open spec fn cube_pos(s: int, i: int) -> (int, int, int) {
    (i / (s * s), (i / s) % s, i % s)
}

proof fn lemma_cube_bounds(s: int)
    requires
        s >= 0,
        s * s * s * 4 <= 0x7fff_ffff,
    ensures
        s * s * s <= 0x2000_0000,
        s * s <= 0x2000_0000,
        s <= 0x800,
{
    assert(s <= 0x800) by (nonlinear_arith)
        requires
            s >= 0,
            s * s * s * 4 <= 0x7fff_ffff,
    ;
    assert(s * s <= 0x40_0000) by (nonlinear_arith)
        requires
            0 <= s <= 0x800,
    ;
}

/// The four bytes of voxel `i`.
pub open spec fn quad(v: Seq<u8>, i: int) -> (u8, u8, u8, u8) {
    (v[4 * i], v[4 * i + 1], v[4 * i + 2], v[4 * i + 3])
}

/// The bytes of a solid voxel below or at height `top`, of an empty one
/// above.
pub open spec fn layered_quad(y: int, top: int) -> (u8, u8, u8, u8) {
    if y > top {
        (0u8, 0u8, 0u8, 0u8)
    } else {
        (1u8, COLLISION_FLAG, 0u8, 0u8)
    }
}

impl Grid {
    /// One four-byte voxel per position of the cube.
    pub open spec fn wf(&self) -> bool {
        &&& side_ok(self.size)
        &&& self.voxels@.len() == self.size * self.size * self.size * 4
    }

    /// A cube of side `size` whose voxels are all zero.
    pub fn empty(size: u32) -> (r: Grid)
        requires
            side_ok(size),
        ensures
            r.wf(),
            r.size == size,
            forall|i: int| 0 <= i < r.voxels@.len() ==> r.voxels@[i] == 0,
    {
        proof {
            lemma_cube_bounds(size as int);
        }
        let n = size * size * size * 4;
        let mut voxels: Vec<u8> = Vec::new();
        let mut i: u32 = 0;
        while i < n
            invariant
                i <= n,
                voxels@.len() == i,
                forall|j: int| 0 <= j < i ==> voxels@[j] == 0,
            decreases n - i,
        {
            voxels.push(0);
            i = i + 1;
        }
        Grid { size, voxels }
    }

    /// A cube of side `size` whose voxels are all solid (identifier one,
    /// colliding).
    pub fn filled(size: u32) -> (r: Grid)
        requires
            side_ok(size),
        ensures
            r.wf(),
            r.size == size,
            forall|i: int| 0 <= i < size * size * size ==> #[trigger] quad(r.voxels@, i) == (1u8, COLLISION_FLAG, 0u8, 0u8),
    {
        Self::layered(size, size)
    }

    /// A cube of side `size` whose voxels up to the middle height are solid
    /// and whose voxels above are empty.
    pub fn flatland(size: u32) -> (r: Grid)
        requires
            side_ok(size),
        ensures
            r.wf(),
            r.size == size,
            forall|i: int|
                0 <= i < size * size * size ==> #[trigger] quad(r.voxels@, i) == layered_quad(
                    cube_pos(size as int, i).1,
                    (size / 2) as int,
                ),
    {
        Self::layered(size, size / 2)
    }

    /// A cube whose voxels up to height `top` are solid and whose voxels
    /// above are empty.
    fn layered(size: u32, top: u32) -> (r: Grid)
        requires
            side_ok(size),
        ensures
            r.wf(),
            r.size == size,
            forall|i: int|
                0 <= i < size * size * size ==> #[trigger] quad(r.voxels@, i) == layered_quad(
                    cube_pos(size as int, i).1,
                    top as int,
                ),
    {
        let mut g = Self::empty(size);
        proof {
            lemma_cube_bounds(size as int);
        }
        let n = size * size * size;
        let mut i: u32 = 0;
        while i < n
            invariant
                i <= n,
                n == size * size * size,
                g.wf(),
                g.size == size,
                size <= 0x800,
                forall|j: int|
                    0 <= j < i ==> #[trigger] quad(g.voxels@, j) == layered_quad(cube_pos(size as int, j).1, top as int),
                forall|j: int| 4 * i <= j < 4 * n ==> g.voxels@[j] == 0,
            decreases n - i,
        {
            let y = (i / size) % size;
            let solid = !(y > top);
            let ghost v0 = g.voxels@;
            if solid {
                g.voxels.set((4 * i) as usize, 1);
                g.voxels.set((4 * i + 1) as usize, COLLISION_FLAG);
            } else {
                g.voxels.set((4 * i) as usize, 0);
                g.voxels.set((4 * i + 1) as usize, 0);
            }
            proof {
                assert forall|j: int|
                    0 <= j < i + 1 implies #[trigger] quad(g.voxels@, j) == layered_quad(
                        cube_pos(size as int, j).1,
                        top as int,
                    ) by {
                    if j < i {
                        assert(quad(v0, j) == quad(g.voxels@, j));
                    } else {
                        assert(y == cube_pos(size as int, j).1);
                    }
                }
            }
            i = i + 1;
        }
        g
    }

    /// The identifier and flags of the voxel at `pos`, as
    /// `(identifier << 8) + flags`.
    pub fn get_at(&self, pos: IVec3) -> (r: u32)
        requires
            self.wf(),
            0 <= pos.x < self.size,
            0 <= pos.y < self.size,
            0 <= pos.z < self.size,
        ensures
            ({
                let i = cube_index(self.size as int, pos.x as int, pos.y as int, pos.z as int);
                r == self.voxels@[4 * i] * 256 + self.voxels@[4 * i + 1]
            }),
    {
        proof {
            lemma_cube_bounds(self.size as int);
            assert(0 <= cube_index(self.size as int, pos.x as int, pos.y as int, pos.z as int) < self.size * self.size
                * self.size) by (nonlinear_arith)
                requires
                    0 <= pos.x < self.size,
                    0 <= pos.y < self.size,
                    0 <= pos.z < self.size,
            ;
            assert(0 <= pos.x * self.size <= 0x40_0000 && 0 <= pos.y * self.size <= 0x40_0000) by (nonlinear_arith)
                requires
                    0 <= pos.x < self.size <= 0x800,
                    0 <= pos.y < self.size <= 0x800,
            ;
            assert(0 <= pos.x * self.size * self.size <= 0x2000_0000) by (nonlinear_arith)
                requires
                    0 <= pos.x < self.size,
                    self.size * self.size * self.size <= 0x2000_0000,
            ;
        }
        let size = self.size as i32;
        let index = (pos.x * size * size + pos.y * size + pos.z) as usize;
        let id = self.voxels[index * 4] as u32;
        let flags = self.voxels[index * 4 + 1] as u32;
        proof {
            assert((id << 8u32) == id * 256) by (bit_vector)
                requires
                    id < 256,
            ;
        }
        (id << 8u32) + flags
    }

    /// Size of the voxel buffer, in bytes.
    pub fn get_buffer_u8_size(&self) -> (r: u32)
        requires
            side_ok(self.size),
        ensures
            r == self.size * self.size * self.size * 4,
    {
        proof {
            lemma_cube_bounds(self.size as int);
        }
        self.size * self.size * self.size * 4
    }

    /// Whether `pos` lies inside the cube.
    pub fn contains(&self, pos: &IVec3) -> (r: bool)
        ensures
            r == (0 <= pos.x < self.size && 0 <= pos.y < self.size && 0 <= pos.z < self.size),
    {
        let s = self.size;
        0 <= pos.x && (pos.x as u32) < s && 0 <= pos.y && (pos.y as u32) < s && 0 <= pos.z && (pos.z as u32) < s
    }
}


impl Grid {
    /// The grid of a cubic `.vox` model: each voxel writes its palette index
    /// and the collision flag at twice the index of its cell. An error when
    /// the model is not a cube, is too large, or a voxel lies outside it.
    pub fn from_model(model: &VoxModel) -> (r: Result<Grid, String>)
        ensures
            ({
                let s = model.size_x;
                let cube = model.size_x == model.size_y && model.size_x == model.size_z;
                let all_in = forall|k: int|
                    0 <= k < model.voxels@.len() ==> in_cube(s as int, #[trigger] model.voxels@[k]);
                match r {
                    Ok(g) => cube && side_ok(s) && all_in && g.size == s && g.voxels@ == placed2(
                        Seq::new((s * s * s * 4) as nat, |i: int| 0u8),
                        s as int,
                        model.voxels@,
                    ),
                    Err(_) => !(cube && side_ok(s) && all_in),
                }
            }),
        model.size_x != model.size_y || model.size_x != model.size_z ==> (r matches Err(m) && m@
            == "Voxel model is not a cube!"@),
        model.size_x == model.size_y && model.size_x == model.size_z && !side_ok(model.size_x) ==> (r matches Err(m)
            && m@ == "Voxel model is too large"@),
        model.size_x == model.size_y && model.size_x == model.size_z && side_ok(model.size_x) && r is Err ==> (r matches Err(m)
            && m@ == "A voxel lies outside the model"@),
    {
        if model.size_x != model.size_y || model.size_x != model.size_z {
            return Err("Voxel model is not a cube!".to_owned());
        }
        let s = model.size_x;
        let fits = if s <= 0x800 {
            let s64 = s as u64;
            proof {
                assert(s64 * s64 <= 0x40_0000 && s64 * s64 * s64 <= 0x2_0000_0000) by (nonlinear_arith)
                    requires
                        s64 <= 0x800,
                ;
            }
            s64 * s64 * s64 * 4 <= 0x7fff_ffffu64
        } else {
            false
        };
        if !fits {
            proof {
                if s > 0x800 {
                    assert(s * s * s * 4 > 0x7fff_ffff) by (nonlinear_arith)
                        requires
                            s > 0x800,
                    ;
                }
            }
            return Err("Voxel model is too large".to_owned());
        }
        let mut g = Grid::empty(s);
        let ghost base = g.voxels@;
        proof {
            assert(base =~= Seq::new((s * s * s * 4) as nat, |i: int| 0u8));
        }
        let mut k: usize = 0;
        while k < model.voxels.len()
            invariant
                k <= model.voxels@.len(),
                s == model.size_x && s == model.size_y && s == model.size_z,
                side_ok(s),
                s <= 0x800,
                g.size == s,
                g.voxels@.len() == s * s * s * 4,
                g.voxels@ == placed2(base, s as int, model.voxels@.subrange(0, k as int)),
                forall|j: int| 0 <= j < k ==> in_cube(s as int, #[trigger] model.voxels@[j]),
            decreases model.voxels.len() - k,
        {
            let v = model.voxels[k];
            if !((v.x as u32) < s && (v.y as u32) < s && (v.z as u32) < s) {
                proof {
                    assert(!in_cube(s as int, model.voxels@[k as int]));
                }
                return Err("A voxel lies outside the model".to_owned());
            }
            let px = (s - 1 - v.x as u32) as usize;
            let py = v.z as usize;
            let pz = v.y as usize;
            let su = s as usize;
            proof {
                assert(0 <= px * su * su + py * su + pz < s * s * s) by (nonlinear_arith)
                    requires
                        px < s,
                        py < s,
                        pz < s,
                        su == s,
                ;
                assert(px * su <= 0x40_0000 && px * su * su <= 0x2_0000_0000 && py * su <= 0x40_0000) by (nonlinear_arith)
                    requires
                        px < su <= 0x800,
                        py < su,
                ;
            }
            let index = px * su * su + py * su + pz;
            g.voxels.set(index * 2, v.i);
            g.voxels.set(index * 2 + 1, COLLISION_FLAG);
            proof {
                let s0 = model.voxels@.subrange(0, k as int);
                let s1 = model.voxels@.subrange(0, k + 1);
                assert(s1.drop_last() =~= s0);
                assert(s1.last() == v);
                assert(index == cube_index(s as int, s - 1 - v.x, v.z as int, v.y as int));
            }
            k = k + 1;
        }
        proof {
            assert(model.voxels@.subrange(0, model.voxels@.len() as int) =~= model.voxels@);
        }
        Ok(g)
    }
}

/// The side of level `i` of the hierarchy of a texture of side `size`: `8`
/// times `2^i` for the first `trailing_zeros(size) - 3` levels, none above.
pub open spec fn level_side(size: u32, i: int) -> u32 {
    if i < vstd::std_specs::bits::u32_trailing_zeros(size) - 3 {
        pow2((i + 3) as nat) as u32
    } else {
        0
    }
}

/// The number of cells of the first `n` levels.
pub open spec fn cells_below(levels: Seq<u32>, n: int) -> int
    decreases n,
{
    if n <= 0 {
        0
    } else {
        cells_below(levels, n - 1) + levels[n - 1] * levels[n - 1] * levels[n - 1]
    }
}

/// Levels whose cells can be counted in a `u32`.
pub open spec fn levels_ok(levels: Seq<u32>) -> bool {
    &&& levels.len() == 8
    &&& forall|i: int| 0 <= i < 8 ==> #[trigger] levels[i] <= 1024
    &&& cells_below(levels, 8) <= u32::MAX
}

proof fn lemma_cells_monotonic(levels: Seq<u32>, a: int, b: int)
    requires
        0 <= a <= b <= 8,
        levels.len() == 8,
    ensures
        cells_below(levels, a) <= cells_below(levels, b),
    decreases b - a,
{
    if a < b {
        lemma_cells_monotonic(levels, a, b - 1);
        let l = levels[b - 1] as int;
        assert(l * l * l >= 0) by (nonlinear_arith)
            requires
                l >= 0,
        ;
    }
}

/// The hierarchy of grids of the voxel engine: the side of each level, and
/// the voxels of the texture, two bytes per voxel (identifier, flags).
#[derive(Debug, Clone)]
pub struct GH {
    pub levels: [u32; 8],
    pub texture_size: u32,
    pub texture_data: Vec<u8>,
}

/// A texture side the hierarchy handles: a multiple of eight with at most
/// eleven trailing zero bits, whose cube of two-byte voxels fits a `u32`.
pub open spec fn texture_side_ok(size: u32) -> bool {
    &&& 3 <= vstd::std_specs::bits::u32_trailing_zeros(size) <= 11
    &&& size * size * size * 2 <= u32::MAX
}

impl GH {
    /// The hierarchy of a texture of side `texture_size`, with no voxel set.
    pub fn empty(texture_size: u32) -> (r: GH)
        requires
            texture_side_ok(texture_size),
        ensures
            forall|i: int| 0 <= i < 8 ==> #[trigger] r.levels@[i] == level_side(texture_size, i),
            r.texture_size == texture_size,
            r.texture_data@.len() == texture_size * texture_size * texture_size * 2,
            forall|i: int| 0 <= i < r.texture_data@.len() ==> r.texture_data@[i] == 0,
    {
        let mut levels: [u32; 8] = [0, 0, 0, 0, 0, 0, 0, 0];
        let n = texture_size.trailing_zeros() - 3;
        let mut i: u32 = 0;
        while i < n
            invariant
                i <= n <= 8,
                n == vstd::std_specs::bits::u32_trailing_zeros(texture_size) - 3,
                forall|j: int| 0 <= j < i ==> #[trigger] levels@[j] == level_side(texture_size, j),
                forall|j: int| i <= j < 8 ==> #[trigger] levels@[j] == 0,
            decreases n - i,
        {
            proof {
                vstd::bits::lemma_u32_pow2_no_overflow((i + 3) as nat);
                vstd::arithmetic::power2::lemma_pow2_strictly_increases((i + 3) as nat, 11);
                vstd::arithmetic::power2::lemma2_to64();
                vstd::bits::lemma_u32_shl_is_mul(1, (i + 3) as u32);
            }
            levels[i as usize] = 1u32 << (i + 3);
            i = i + 1;
        }
        proof {
            assert forall|j: int| 0 <= j < 8 implies #[trigger] levels@[j] == level_side(texture_size, j) by {
                if j >= n {
                    assert(levels@[j] == 0);
                }
            }
        }
        proof {
            let t = texture_size as int;
            vstd::std_specs::bits::axiom_u32_trailing_zeros(texture_size);
            assert(t * t <= t * t * t * 2 && t * t * t <= t * t * t * 2) by (nonlinear_arith)
                requires
                    t >= 1,
            ;
        }
        let len = texture_size * texture_size * texture_size * 2;
        let mut texture_data: Vec<u8> = Vec::new();
        let mut k: u32 = 0;
        while k < len
            invariant
                k <= len,
                texture_data@.len() == k,
                forall|j: int| 0 <= j < k ==> texture_data@[j] == 0,
            decreases len - k,
        {
            texture_data.push(0);
            k = k + 1;
        }
        GH { levels, texture_size, texture_data }
    }

    /// Where each level starts among the cells of all levels.
    pub fn get_offsets(&self) -> (r: [u32; 8])
        requires
            levels_ok(self.levels@),
        ensures
            forall|i: int| 0 <= i < 8 ==> #[trigger] r@[i] == cells_below(self.levels@, i),
    {
        let mut offsets: [u32; 8] = [0, 0, 0, 0, 0, 0, 0, 0];
        let mut last: u32 = 0;
        let mut i: usize = 0;
        while i < 8
            invariant
                i <= 8,
                levels_ok(self.levels@),
                last == cells_below(self.levels@, i as int),
                forall|j: int| 0 <= j < i ==> #[trigger] offsets@[j] == cells_below(self.levels@, j),
            decreases 8 - i,
        {
            offsets[i] = last;
            proof {
                lemma_cells_monotonic(self.levels@, i + 1, 8);
                let l = self.levels@[i as int] as int;
                assert(l * l <= 0x10_0000 && l * l * l <= 0x4000_0000) by (nonlinear_arith)
                    requires
                        0 <= l <= 1024,
                ;
            }
            let l = self.levels[i];
            last = last + l * l * l;
            i = i + 1;
        }
        offsets
    }

    /// The size of the buffer holding the levels: their cells, eight per
    /// byte.
    pub fn get_buffer_size_from_levels(levels: &[u32; 8]) -> (r: usize)
        requires
            levels_ok(levels@),
        ensures
            r == cells_below(levels@, 8) / 8,
    {
        let mut length: u32 = 0;
        let mut i: usize = 0;
        while i < 8
            invariant
                i <= 8,
                levels_ok(levels@),
                length == cells_below(levels@, i as int),
            decreases 8 - i,
        {
            proof {
                lemma_cells_monotonic(levels@, i + 1, 8);
                let l = levels@[i as int] as int;
                assert(l * l <= 0x10_0000 && l * l * l <= 0x4000_0000) by (nonlinear_arith)
                    requires
                        0 <= l <= 1024,
                ;
            }
            let l = levels[i];
            length = length + l * l * l;
            i = i + 1;
        }
        length as usize / 8
    }

    /// The size of the buffer holding the levels of this hierarchy.
    pub fn get_buffer_size(&self) -> (r: usize)
        requires
            levels_ok(self.levels@),
        ensures
            r == cells_below(self.levels@, 8) / 8,
    {
        Self::get_buffer_size_from_levels(&self.levels)
    }

    /// The hierarchy of a cubic `.vox` model: each voxel sets the identifier
    /// of its cell to its palette index and makes it collide. An error when
    /// the model is not a cube, when its side is not one the hierarchy
    /// handles, or when a voxel lies outside it.
    pub fn from_model(model: &VoxModel) -> (r: Result<GH, String>)
        ensures
            ({
                let s = model.size_x;
                let cube = model.size_x == model.size_y && model.size_x == model.size_z;
                let all_in = forall|k: int|
                    0 <= k < model.voxels@.len() ==> in_cube(s as int, #[trigger] model.voxels@[k]);
                match r {
                    Ok(g) => cube && texture_side_ok(s) && all_in && g.texture_size == s && (forall|i: int|
                        0 <= i < 8 ==> #[trigger] g.levels@[i] == level_side(s, i)) && g.texture_data@ == placed2(
                        Seq::new((s * s * s * 2) as nat, |i: int| 0u8),
                        s as int,
                        model.voxels@,
                    ),
                    Err(_) => !(cube && texture_side_ok(s) && all_in),
                }
            }),
        model.size_x != model.size_y || model.size_x != model.size_z ==> (r matches Err(m) && m@
            == "Voxel model is not a cube!"@),
        model.size_x == model.size_y && model.size_x == model.size_z && !texture_side_ok(model.size_x) ==> (r matches Err(m)
            && m@ == "Voxel model side is not supported"@),
        model.size_x == model.size_y && model.size_x == model.size_z && texture_side_ok(model.size_x) && r is Err ==> (r matches Err(m)
            && m@ == "A voxel lies outside the model"@),
    {
        if model.size_x != model.size_y || model.size_x != model.size_z {
            return Err("Voxel model is not a cube!".to_owned());
        }
        let s = model.size_x;
        let tz = s.trailing_zeros();
        let fits = if s <= 0x659 {
            let s64 = s as u64;
            proof {
                assert(s64 * s64 <= 0x29_0000 && s64 * s64 * s64 <= 0x1_0000_0000) by (nonlinear_arith)
                    requires
                        s64 <= 0x659,
                ;
            }
            s64 * s64 * s64 * 2 <= 0xffff_ffffu64
        } else {
            false
        };
        if !(3 <= tz && tz <= 11 && fits) {
            proof {
                if s <= 0x659 {
                    assert(s * s * s * 2 == (s as u64) * (s as u64) * (s as u64) * 2);
                } else {
                    assert(s * s * s * 2 > u32::MAX) by (nonlinear_arith)
                        requires
                            s > 0x659,
                    ;
                }
            }
            return Err("Voxel model side is not supported".to_owned());
        }
        let mut gh = GH::empty(s);
        let ghost base = gh.texture_data@;
        proof {
            assert(base =~= Seq::new((s * s * s * 2) as nat, |i: int| 0u8));
            assert(s <= 0x659);
        }
        let mut k: usize = 0;
        while k < model.voxels.len()
            invariant
                k <= model.voxels@.len(),
                s == model.size_x && s == model.size_y && s == model.size_z,
                texture_side_ok(s),
                s <= 0x659,
                gh.texture_size == s,
                forall|i: int| 0 <= i < 8 ==> #[trigger] gh.levels@[i] == level_side(s, i),
                gh.texture_data@.len() == s * s * s * 2,
                gh.texture_data@ == placed2(base, s as int, model.voxels@.subrange(0, k as int)),
                forall|j: int| 0 <= j < k ==> in_cube(s as int, #[trigger] model.voxels@[j]),
            decreases model.voxels.len() - k,
        {
            let v = model.voxels[k];
            if !((v.x as u32) < s && (v.y as u32) < s && (v.z as u32) < s) {
                proof {
                    assert(!in_cube(s as int, model.voxels@[k as int]));
                }
                return Err("A voxel lies outside the model".to_owned());
            }
            let px = (s - 1 - v.x as u32) as usize;
            let py = v.z as usize;
            let pz = v.y as usize;
            let su = s as usize;
            proof {
                assert(0 <= px * su * su + py * su + pz < s * s * s) by (nonlinear_arith)
                    requires
                        px < s,
                        py < s,
                        pz < s,
                        su == s,
                ;
                assert(px * su <= 0x29_0000 && px * su * su <= 0x1_0000_0000 && py * su <= 0x29_0000) by (nonlinear_arith)
                    requires
                        px < su <= 0x659,
                        py < su,
                ;
            }
            let index = px * su * su + py * su + pz;
            gh.texture_data.set(index * 2, v.i);
            gh.texture_data.set(index * 2 + 1, COLLISION_FLAG);
            proof {
                let s0 = model.voxels@.subrange(0, k as int);
                let s1 = model.voxels@.subrange(0, k + 1);
                assert(s1.drop_last() =~= s0);
                assert(s1.last() == v);
                assert(index == cube_index(s as int, s - 1 - v.x, v.z as int, v.y as int));
            }
            k = k + 1;
        }
        proof {
            assert(model.voxels@.subrange(0, model.voxels@.len() as int) =~= model.voxels@);
        }
        Ok(gh)
    }
}

/// The voxel of a `.vox` model of side `s` lies in it.
pub open spec fn in_cube(s: int, v: VoxPoint) -> bool {
    v.x < s && v.y < s && v.z < s
}

/// Two-byte voxels with the voxels `pts` of a model of side `s` placed in
/// order: the width is mirrored, the two other axes swapped, and the cell
/// gets the palette index and the collision flag.
pub open spec fn placed2(base: Seq<u8>, s: int, pts: Seq<VoxPoint>) -> Seq<u8>
    decreases pts.len(),
{
    if pts.len() == 0 {
        base
    } else {
        let prev = placed2(base, s, pts.drop_last());
        let v = pts.last();
        let i = cube_index(s, s - 1 - v.x, v.z as int, v.y as int);
        prev.update(2 * i, v.i).update(2 * i + 1, COLLISION_FLAG)
    }
}

} // verus!
