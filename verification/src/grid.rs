//! Cubic sections of voxels as the renderer stores them, and voxel models
//! of any size.
use vstd::prelude::*;
use crate::chunk::{in_chunk, index_of, pos_of};
use crate::ivec::IVec3;
use crate::vox::{VoxModel, VoxPoint};
use crate::{CHUNK_AREA, CHUNK_SIDE, CHUNK_VOLUME};

verus! {

/// Flag of a voxel that collides.
pub const COLLISION_FLAG: u8 = 16;

/// One voxel: identifier, flags, light, and a spare byte.
#[derive(Debug, Clone, Copy, PartialEq, Eq, Structural)]
pub struct Voxel {
    pub id: u8,
    pub flags: u8,
    pub light: u8,
    pub unused: u8,
}

impl Default for Voxel {
    fn default() -> (r: Self)
        ensures
            r == (Voxel { id: 0, flags: 0, light: 0, unused: 0 }),
    {
        Voxel { id: 0, flags: 0, light: 0, unused: 0 }
    }
}

/// The voxel of a solid block: identifier one, colliding.
pub open spec fn solid_voxel() -> Voxel {
    Voxel { id: 1, flags: COLLISION_FLAG, light: 0, unused: 0 }
}

/// The four stored bytes of a voxel.
pub open spec fn voxel_bytes(v: Voxel) -> Seq<u8> {
    seq![v.id, v.flags, v.light, v.unused]
}

/// A cube of `CHUNK_VOLUME` voxels.
#[derive(Debug, Clone)]
pub struct Grid {
    pub voxels: Vec<Voxel>,
}

impl Grid {
    /// One voxel per position of the cube.
    pub open spec fn wf(&self) -> bool {
        self.voxels@.len() == CHUNK_VOLUME
    }

    /// The voxel at `xyz`.
    pub open spec fn voxel_at(&self, xyz: IVec3) -> Voxel {
        self.voxels@[index_of(xyz)]
    }

    fn uniform(v: Voxel) -> (r: Grid)
        ensures
            r.wf(),
            forall|i: int| 0 <= i < CHUNK_VOLUME ==> r.voxels@[i] == v,
    {
        let mut voxels: Vec<Voxel> = Vec::with_capacity(CHUNK_VOLUME);
        let mut i: usize = 0;
        while i < CHUNK_VOLUME
            invariant
                i <= CHUNK_VOLUME,
                voxels@.len() == i,
                forall|j: int| 0 <= j < i ==> voxels@[j] == v,
            decreases CHUNK_VOLUME - i,
        {
            voxels.push(v);
            i = i + 1;
        }
        Grid { voxels }
    }

    /// A cube of default voxels.
    pub fn empty() -> (r: Grid)
        ensures
            r.wf(),
            forall|i: int| 0 <= i < CHUNK_VOLUME ==> r.voxels@[i] == (Voxel { id: 0, flags: 0, light: 0, unused: 0 }),
    {
        Self::uniform(Voxel::default())
    }

    /// A cube of solid voxels.
    pub fn filled() -> (r: Grid)
        ensures
            r.wf(),
            forall|i: int| 0 <= i < CHUNK_VOLUME ==> r.voxels@[i] == solid_voxel(),
    {
        Self::uniform(Voxel { id: 1, flags: COLLISION_FLAG, light: 0, unused: 0 })
    }

    /// Index of `xyz` in the voxel array.
    pub fn xyz_to_index(xyz: IVec3) -> (r: usize)
        requires
            in_chunk(xyz),
        ensures
            r == index_of(xyz),
            r < CHUNK_VOLUME,
    {
        crate::chunk::xyz2idx(xyz)
    }

    /// Position of the voxel at `index` of the voxel array.
    pub fn index_to_xyz(index: usize) -> (r: IVec3)
        ensures
            r == (IVec3 {
                x: (index / 1024) as i32,
                y: ((index / 32) % 32) as i32,
                z: (index % 32) as i32,
            }),
            index < CHUNK_VOLUME ==> r == pos_of(index as int),
    {
        crate::chunk::idx2xyz(index)
    }

    /// The lower half of the cube, up to the middle height, is solid; the
    /// rest is empty.
    pub fn flatland() -> (r: Grid)
        ensures
            r.wf(),
            forall|i: int|
                0 <= i < CHUNK_VOLUME ==> #[trigger] r.voxels@[i] == if pos_of(i).y > CHUNK_SIDE / 2 {
                    Voxel { id: 0, flags: 0, light: 0, unused: 0 }
                } else {
                    solid_voxel()
                },
    {
        let mut grid = Grid::empty();
        let mut i: usize = 0;
        while i < CHUNK_VOLUME
            invariant
                i <= CHUNK_VOLUME,
                grid.wf(),
                forall|j: int|
                    0 <= j < i ==> #[trigger] grid.voxels@[j] == if pos_of(j).y > CHUNK_SIDE / 2 {
                        Voxel { id: 0, flags: 0, light: 0, unused: 0 }
                    } else {
                        solid_voxel()
                    },
                forall|j: int| i <= j < CHUNK_VOLUME ==> grid.voxels@[j] == (Voxel { id: 0, flags: 0, light: 0, unused: 0 }),
            decreases CHUNK_VOLUME - i,
        {
            let xyz = Self::index_to_xyz(i);
            let mut v = grid.voxels[i];
            if xyz.y > (CHUNK_SIDE / 2) as i32 {
                v.id = 0;
                v.flags = 0;
            } else {
                v.id = 1;
                v.flags = COLLISION_FLAG;
            }
            grid.voxels.set(i, v);
            i = i + 1;
        }
        grid
    }

    /// The voxel at `xyz`.
    pub fn get_at(&self, xyz: IVec3) -> (r: Voxel)
        requires
            self.wf(),
            in_chunk(xyz),
        ensures
            r == self.voxel_at(xyz),
    {
        self.voxels[Self::xyz_to_index(xyz)]
    }

    /// Replaces the voxel at `xyz`.
    pub fn set_at(&mut self, xyz: IVec3, voxel: Voxel)
        requires
            old(self).wf(),
            in_chunk(xyz),
        ensures
            final(self).wf(),
            final(self).voxels@ == old(self).voxels@.update(index_of(xyz), voxel),
    {
        let i = Self::xyz_to_index(xyz);
        self.voxels.set(i, voxel);
    }

    /// Whether `xyz` lies inside the cube.
    pub fn contains(xyz: &IVec3) -> (r: bool)
        ensures
            r == in_chunk(*xyz),
    {
        crate::chunk::contains(xyz)
    }

    /// The bytes of the voxels, four per voxel, in index order.
    pub fn to_bytes(&self) -> (r: Vec<u8>)
        requires
            self.wf(),
        ensures
            r@.len() == 4 * CHUNK_VOLUME,
            forall|j: int| 0 <= j < 4 * CHUNK_VOLUME ==> #[trigger] r@[j] == voxel_bytes(self.voxels@[j / 4])[j % 4],
    {
        voxels_to_bytes(&self.voxels)
    }
}

/// The bytes of voxels, four per voxel, in order.
fn voxels_to_bytes(voxels: &Vec<Voxel>) -> (r: Vec<u8>)
    requires
        voxels@.len() <= 0x1000_0000,
    ensures
        r@.len() == 4 * voxels@.len(),
        forall|j: int| 0 <= j < 4 * voxels@.len() ==> #[trigger] r@[j] == voxel_bytes(voxels@[j / 4])[j % 4],
{
    let mut r: Vec<u8> = Vec::new();
    let mut i: usize = 0;
    while i < voxels.len()
        invariant
            i <= voxels@.len(),
            voxels@.len() <= 0x1000_0000,
            r@.len() == 4 * i,
            forall|j: int| 0 <= j < 4 * i ==> #[trigger] r@[j] == voxel_bytes(voxels@[j / 4])[j % 4],
        decreases voxels.len() - i,
    {
        let v = voxels[i];
        let ghost r0 = r@;
        r.push(v.id);
        r.push(v.flags);
        r.push(v.light);
        r.push(v.unused);
        proof {
            assert forall|j: int| 0 <= j < 4 * (i + 1) implies #[trigger] r@[j] == voxel_bytes(voxels@[j / 4])[j % 4] by {
                if j < 4 * i {
                    assert(r@[j] == r0[j]);
                } else {
                    assert(j / 4 == i && j % 4 == j - 4 * i) by (nonlinear_arith)
                        requires
                            4 * i <= j < 4 * i + 4,
                    ;
                }
            }
        }
        i = i + 1;
    }
    r
}

/// Going from a position of the cube to its index and back gives the
/// position, and from an index to its position and back gives the index.
pub proof fn law_index_roundtrip(p: IVec3, i: int)
    ensures
        in_chunk(p) ==> pos_of(index_of(p)) == p && 0 <= index_of(p) < CHUNK_VOLUME,
        0 <= i < CHUNK_VOLUME ==> index_of(pos_of(i)) == i && in_chunk(pos_of(i)),
{
    if in_chunk(p) {
        crate::chunk::lemma_index_of_pos(p);
    }
    if 0 <= i < CHUNK_VOLUME {
        crate::chunk::lemma_pos_of_index(i);
    }
}

/// Setting a voxel and reading it back gives that voxel, and reading any
/// other position gives what was there.
pub proof fn law_set_then_get(before: Grid, after: Grid, p: IVec3, v: Voxel, q: IVec3)
    requires
        before.wf(),
        in_chunk(p),
        in_chunk(q),
        after.voxels@ == before.voxels@.update(index_of(p), v),
    ensures
        after.voxel_at(p) == v,
        q != p ==> after.voxel_at(q) == before.voxel_at(q),
{
    crate::chunk::lemma_index_of_pos(p);
    crate::chunk::lemma_index_of_pos(q);
    if q != p && index_of(q) == index_of(p) {
        crate::chunk::lemma_index_injective(p, q);
    }
}

/// A voxel model of any size.
#[derive(Debug, Clone)]
pub struct VoxGrid {
    pub voxels: Vec<Voxel>,
    pub size: IVec3,
}

/// A size whose volume is a usable number of voxels.
pub open spec fn size_ok(size: IVec3) -> bool {
    &&& size.x >= 0 && size.y >= 0 && size.z >= 0
    &&& size.x * size.y * size.z <= 0x1000_0000
}

/// Index of the voxel at `p` in a model of size `size`.
pub open spec fn model_index(size: IVec3, p: IVec3) -> int {
    p.x * size.y * size.z + p.y * size.z + p.z
}

/// Where a voxel of a `.vox` model of width `size_x` lands: the width is
/// mirrored and the two other axes are swapped.
pub open spec fn vox_position(size_x: int, v: VoxPoint) -> IVec3 {
    IVec3 { x: (size_x - 1 - v.x) as i32, y: v.z as i32, z: v.y as i32 }
}

/// The voxel at `p` lies in a model of size `size`.
pub open spec fn in_model(size: IVec3, p: IVec3) -> bool {
    0 <= p.x < size.x && 0 <= p.y < size.y && 0 <= p.z < size.z
}

/// The voxels of a model with the voxels `pts` placed in order: each sets the
/// identifier of its voxel to its palette index and makes it collide.
pub open spec fn placed(base: Seq<Voxel>, size: IVec3, pts: Seq<VoxPoint>) -> Seq<Voxel>
    decreases pts.len(),
{
    if pts.len() == 0 {
        base
    } else {
        let prev = placed(base, size, pts.drop_last());
        let v = pts.last();
        let i = model_index(size, vox_position(size.x as int, v));
        prev.update(i, Voxel { id: v.i, flags: COLLISION_FLAG, ..prev[i] })
    }
}

impl VoxGrid {
    /// A model of `size` default voxels.
    pub fn new(size: IVec3) -> (r: VoxGrid)
        requires
            size_ok(size),
        ensures
            r.size == size,
            r.voxels@.len() == size.x * size.y * size.z,
            forall|i: int| 0 <= i < r.voxels@.len() ==> r.voxels@[i] == (Voxel { id: 0, flags: 0, light: 0, unused: 0 }),
    {
        proof {
            assert(0 <= size.x * size.y) by (nonlinear_arith)
                requires
                    size.x >= 0,
                    size.y >= 0,
            ;
            assert(0 <= size.x * size.y * size.z) by (nonlinear_arith)
                requires
                    size.x * size.y >= 0,
                    size.z >= 0,
            ;
            assert(size.z == 0 || size.x * size.y <= 0x1000_0000) by (nonlinear_arith)
                requires
                    size.x * size.y >= 0,
                    size.z >= 0,
                    size.x * size.y * size.z <= 0x1000_0000,
            ;
            assert(size.x * size.y <= 0x4000_0000_0000_0000) by (nonlinear_arith)
                requires
                    0 <= size.x <= 0x7fff_ffff,
                    0 <= size.y <= 0x7fff_ffff,
            ;
        }
        let volume = (size.x as i64 * size.y as i64 * size.z as i64) as usize;
        let mut voxels: Vec<Voxel> = Vec::new();
        let mut i: usize = 0;
        while i < volume
            invariant
                i <= volume,
                voxels@.len() == i,
                forall|j: int| 0 <= j < i ==> voxels@[j] == (Voxel { id: 0, flags: 0, light: 0, unused: 0 }),
            decreases volume - i,
        {
            voxels.push(Voxel::default());
            i = i + 1;
        }
        VoxGrid { voxels, size }
    }

    /// The stored form of the model: its size (three `i32`, low byte first),
    /// four zero bytes, the given palette bytes, then four bytes per voxel.
    pub fn to_bytes_vec(&self, palette_bytes: &Vec<u8>) -> (r: Vec<u8>)
        requires
            self.voxels@.len() <= 0x1000_0000,
        ensures
            r@ == crate::saveload::i32_bytes(self.size.x) + crate::saveload::i32_bytes(self.size.y)
                + crate::saveload::i32_bytes(self.size.z) + seq![0u8, 0u8, 0u8, 0u8] + palette_bytes@
                + Seq::new(4 * self.voxels@.len(), |j: int| voxel_bytes(self.voxels@[j / 4])[j % 4]),
    {
        let mut r: Vec<u8> = Vec::new();
        crate::saveload::push_i32(&mut r, self.size.x);
        crate::saveload::push_i32(&mut r, self.size.y);
        crate::saveload::push_i32(&mut r, self.size.z);
        crate::saveload::push_i32(&mut r, 0);
        let ghost head = r@;
        let mut i: usize = 0;
        while i < palette_bytes.len()
            invariant
                i <= palette_bytes@.len(),
                r@ == head + palette_bytes@.subrange(0, i as int),
            decreases palette_bytes.len() - i,
        {
            r.push(palette_bytes[i]);
            proof {
                assert(palette_bytes@.subrange(0, i + 1) =~= palette_bytes@.subrange(0, i as int).push(palette_bytes@[i as int]));
            }
            i = i + 1;
        }
        let ghost mid = r@;
        let body = voxels_to_bytes(&self.voxels);
        let mut j: usize = 0;
        while j < body.len()
            invariant
                j <= body@.len(),
                r@ == mid + body@.subrange(0, j as int),
            decreases body.len() - j,
        {
            r.push(body[j]);
            proof {
                assert(body@.subrange(0, j + 1) =~= body@.subrange(0, j as int).push(body@[j as int]));
            }
            j = j + 1;
        }
        proof {
            assert(palette_bytes@.subrange(0, palette_bytes@.len() as int) =~= palette_bytes@);
            assert(body@.subrange(0, body@.len() as int) =~= body@);
            assert(crate::saveload::i32_bytes(0) =~= seq![0u8, 0u8, 0u8, 0u8]) by {
                assert((0i32 as u32 & 0xff) as u8 == 0u8 && ((0i32 as u32 >> 8u32) & 0xff) as u8 == 0u8 && ((0i32
                    as u32 >> 16u32) & 0xff) as u8 == 0u8 && (0i32 as u32 >> 24u32) as u8 == 0u8) by (bit_vector);
            }
            assert(body@ =~= Seq::new(4 * self.voxels@.len(), |j: int| voxel_bytes(self.voxels@[j / 4])[j % 4]));
        }
        r
    }

    /// The model of a `.vox` model: its size, and each of its voxels placed
    /// in order. An error when a voxel lies outside the model.
    pub fn from_model(model: &VoxModel) -> (r: Result<VoxGrid, String>)
        requires
            model.size_x <= 0x800,
            model.size_y <= 0x800,
            model.size_z <= 0x800,
            model.size_x * model.size_y * model.size_z <= 0x1000_0000,
        ensures
            ({
                let size = IVec3 { x: model.size_x as i32, y: model.size_y as i32, z: model.size_z as i32 };
                let all_in = forall|k: int|
                    0 <= k < model.voxels@.len() ==> in_model(size, vox_position(size.x as int, #[trigger] model.voxels@[k]));
                match r {
                    Ok(g) => all_in && g.size == size && g.voxels@ == placed(
                        Seq::new((size.x * size.y * size.z) as nat, |i: int| Voxel { id: 0, flags: 0, light: 0, unused: 0 }),
                        size,
                        model.voxels@,
                    ),
                    Err(_) => !all_in,
                }
            }),
        r is Err ==> (r matches Err(m) && m@ == "A voxel lies outside the model"@),
    {
        let size = IVec3 { x: model.size_x as i32, y: model.size_y as i32, z: model.size_z as i32 };
        let mut grid = VoxGrid::new(size);
        let ghost base = grid.voxels@;
        proof {
            assert(base =~= Seq::new((size.x * size.y * size.z) as nat, |i: int| Voxel { id: 0, flags: 0, light: 0, unused: 0 }));
        }
        let mut k: usize = 0;
        while k < model.voxels.len()
            invariant
                k <= model.voxels@.len(),
                grid.size == size,
                size.x == model.size_x && size.y == model.size_y && size.z == model.size_z,
                model.size_x <= 0x800 && model.size_y <= 0x800 && model.size_z <= 0x800,
                model.size_x * model.size_y * model.size_z <= 0x1000_0000,
                grid.voxels@.len() == size.x * size.y * size.z,
                grid.voxels@ == placed(base, size, model.voxels@.subrange(0, k as int)),
                forall|j: int| 0 <= j < k ==> in_model(size, vox_position(size.x as int, #[trigger] model.voxels@[j])),
            decreases model.voxels.len() - k,
        {
            let v = model.voxels[k];
            let px = size.x as i64 - 1 - v.x as i64;
            let py = v.z as i64;
            let pz = v.y as i64;
            if !(0 <= px && px < size.x as i64 && py < size.y as i64 && pz < size.z as i64) {
                proof {
                    assert(!in_model(size, vox_position(size.x as int, model.voxels@[k as int])));
                }
                return Err("A voxel lies outside the model".to_owned());
            }
            proof {
                assert(0 <= px * size.y * size.z + py * size.z + pz < size.x * size.y * size.z) by (nonlinear_arith)
                    requires
                        0 <= px < size.x,
                        0 <= py < size.y,
                        0 <= pz < size.z,
                ;
                assert(0 <= px * size.y <= 0x40_0000 && 0 <= px * size.y * size.z <= 0x2_0000_0000 && 0 <= py
                    * size.z <= 0x40_0000) by (nonlinear_arith)
                    requires
                        0 <= px < size.x <= 0x800,
                        0 <= py < size.y <= 0x800,
                        0 <= size.z <= 0x800,
                ;
            }
            let index = (px * size.y as i64 * size.z as i64 + py * size.z as i64 + pz) as usize;
            let old_v = grid.voxels[index];
            grid.voxels.set(index, Voxel { id: v.i, flags: COLLISION_FLAG, ..old_v });
            proof {
                let s0 = model.voxels@.subrange(0, k as int);
                let s1 = model.voxels@.subrange(0, k + 1);
                assert(s1.drop_last() =~= s0);
                assert(s1.last() == v);
                let vp = vox_position(size.x as int, v);
                assert(vp.x == px && vp.y == py && vp.z == pz);
                assert(index == model_index(size, vp));
            }
            k = k + 1;
        }
        proof {
            assert(model.voxels@.subrange(0, model.voxels@.len() as int) =~= model.voxels@);
        }
        Ok(grid)
    }
}

} // verus!
