//! Shapes made of voxels, and a sparse grid of boolean voxels holding them.
use vstd::prelude::*;
use std::collections::HashMap;
use crate::ivec::{pos_key, IVec3};

verus! {

broadcast use vstd::std_specs::hash::group_hash_axioms;

/// A shape to fill with voxels.
#[derive(Debug, Clone, Copy, PartialEq, Eq, Structural)]
pub enum VoxelShape {
    /// The box of the given size, from the origin.
    FilledCuboid(IVec3),
    /// The ball of the given radius, in the box of side twice the radius.
    Sphere(u32),
    /// Each voxel of the box of the given size, with odds of one half, drawn
    /// from the generator seeded with `seed`.
    Random { size: IVec3, seed: u64 },
}

/// The number of voxels of a box (none along a negative side).
pub open spec fn box_volume(size: IVec3) -> int {
    let x = if size.x > 0 { size.x as int } else { 0 };
    let y = if size.y > 0 { size.y as int } else { 0 };
    let z = if size.z > 0 { size.z as int } else { 0 };
    x * y * z
}

/// The voxel at index `i` of a box listed with `x` outermost and `z`
/// innermost.
pub open spec fn box_point(size: IVec3, i: int) -> IVec3 {
    let sy = size.y as int;
    let sz = size.z as int;
    IVec3 { x: (i / (sy * sz)) as i32, y: ((i / sz) % sy) as i32, z: (i % sz) as i32 }
}

/// The voxel at `(x, y, z)` of the box of side `2 * r` lies strictly inside
/// the ball of radius `r` centred in the box.
pub open spec fn in_ball(r: int, x: int, y: int, z: int) -> bool {
    (x - r) * (x - r) + (y - r) * (y - r) + (z - r) * (z - r) < r * r
}

/// The voxels of the box of side `2 * r`, listed with `x` outermost, that
/// lie in the ball; `n` is how many of the box's voxels are looked at.
pub open spec fn ball_points(r: int, n: int) -> Seq<IVec3>
    decreases n,
{
    if n <= 0 {
        Seq::empty()
    } else {
        let prev = ball_points(r, n - 1);
        let p = box_point(IVec3 { x: (2 * r) as i32, y: (2 * r) as i32, z: (2 * r) as i32 }, n - 1);
        if in_ball(r, p.x as int, p.y as int, p.z as int) {
            prev.push(p)
        } else {
            prev
        }
    }
}

/// The voxels of the box whose draw, in `coins`, came out true, in order.
pub open spec fn drawn_points(size: IVec3, coins: Seq<bool>, n: int) -> Seq<IVec3>
    decreases n,
{
    if n <= 0 {
        Seq::empty()
    } else {
        let prev = drawn_points(size, coins, n - 1);
        if coins[n - 1] {
            prev.push(box_point(size, n - 1))
        } else {
            prev
        }
    }
}

#[verifier::external_type_specification]
#[verifier::external_body]
pub struct ExChaCha8Rng(rand_chacha::ChaCha8Rng);

/// A ChaCha8 generator, with the seed it was made from and the number of
/// coins drawn from it so far. Only [`seeded_coins`] and [`draw_half`] touch
/// its fields.
struct CoinFlips {
    rng: rand_chacha::ChaCha8Rng,
    seed: Ghost<u64>,
    drawn: Ghost<nat>,
}

/// The coin that `rand::Rng::gen_ratio(1, 2)` gives as draw number `k`
/// (from 0) on a `rand_chacha::ChaCha8Rng` made by `seed_from_u64(seed)`,
/// when every draw before it was such a coin too. Each such draw takes one
/// `u64` from the generator, whose stream is fixed by the seed.
pub uninterp spec fn half_draw(seed: u64, k: nat) -> bool;

/// The first `n` coins drawn from the generator seeded with `seed`.
pub open spec fn seed_coins(seed: u64, n: nat) -> Seq<bool> {
    Seq::new(n, |k: int| half_draw(seed, k as nat))
}

/// Calls `rand_chacha::ChaCha8Rng::seed_from_u64` (of `rand::SeedableRng`):
/// a generator from which nothing has been drawn yet.
#[verifier::external_body]
fn seeded_coins(seed: u64) -> (r: CoinFlips)
    ensures
        r.seed@ == seed,
        r.drawn@ == 0,
{
    CoinFlips {
        rng: <rand_chacha::ChaCha8Rng as rand::SeedableRng>::seed_from_u64(seed),
        seed: Ghost(seed),
        drawn: Ghost(0),
    }
}

/// Calls `rand::Rng::gen_ratio` with odds one in two: the coin numbered by
/// the draws made so far, see [`half_draw`].
#[verifier::external_body]
fn draw_half(c: &mut CoinFlips) -> (r: bool)
    ensures
        r == half_draw(old(c).seed@, old(c).drawn@),
        final(c).seed@ == old(c).seed@,
        final(c).drawn@ == old(c).drawn@ + 1,
{
    let r = rand::Rng::gen_ratio(&mut c.rng, 1, 2);
    c.drawn = Ghost(c.drawn@ + 1);
    r
}

impl Default for VoxelShape {
    fn default() -> (r: Self)
        ensures
            r == VoxelShape::FilledCuboid(IVec3 { x: 16, y: 16, z: 16 }),
    {
        VoxelShape::FilledCuboid(IVec3 { x: 16, y: 16, z: 16 })
    }
}

/// The box of side `s` along each axis.
pub open spec fn cube_of(s: i32) -> IVec3 {
    IVec3 { x: s, y: s, z: s }
}

impl VoxelShape {
    /// The shapes offered to choose from.
    pub fn opts() -> (r: Vec<VoxelShape>)
        ensures
            r@ == seq![
                VoxelShape::FilledCuboid(cube_of(16)),
                VoxelShape::FilledCuboid(cube_of(32)),
                VoxelShape::FilledCuboid(cube_of(64)),
                VoxelShape::FilledCuboid(cube_of(128)),
                VoxelShape::FilledCuboid(cube_of(256)),
                VoxelShape::Sphere(8),
                VoxelShape::Sphere(32),
                VoxelShape::Sphere(128),
                VoxelShape::Random { size: cube_of(256), seed: 69 },
            ],
    {
        let r = vec![
            VoxelShape::FilledCuboid(IVec3 { x: 16, y: 16, z: 16 }),
            VoxelShape::FilledCuboid(IVec3 { x: 32, y: 32, z: 32 }),
            VoxelShape::FilledCuboid(IVec3 { x: 64, y: 64, z: 64 }),
            VoxelShape::FilledCuboid(IVec3 { x: 128, y: 128, z: 128 }),
            VoxelShape::FilledCuboid(IVec3 { x: 256, y: 256, z: 256 }),
            VoxelShape::Sphere(8),
            VoxelShape::Sphere(32),
            VoxelShape::Sphere(128),
            VoxelShape::Random { size: IVec3 { x: 256, y: 256, z: 256 }, seed: 69 },
        ];
        proof {
            assert(r@ =~= seq![
                VoxelShape::FilledCuboid(cube_of(16)),
                VoxelShape::FilledCuboid(cube_of(32)),
                VoxelShape::FilledCuboid(cube_of(64)),
                VoxelShape::FilledCuboid(cube_of(128)),
                VoxelShape::FilledCuboid(cube_of(256)),
                VoxelShape::Sphere(8),
                VoxelShape::Sphere(32),
                VoxelShape::Sphere(128),
                VoxelShape::Random { size: cube_of(256), seed: 69 },
            ]);
        }
        r
    }
}


/// Positive sides, and a volume a list can hold.
pub open spec fn listable(size: IVec3) -> bool {
    0 < size.x && 0 < size.y && 0 < size.z && size.x * size.y * size.z <= 0x1000_0000
}

/// The voxel at index `i` of a box with positive sides.
fn box_point_at(size: IVec3, i: u64) -> (r: IVec3)
    requires
        0 < size.y,
        0 < size.z,
        size.y * size.z <= 0x1000_0000,
        i < 0x1_0000_0000_0000,
    ensures
        r == box_point(size, i as int),
{
    let sy = size.y as u64;
    let sz = size.z as u64;
    proof {
        assert(0 < sy * sz <= 0x1000_0000) by (nonlinear_arith)
            requires
                sy > 0,
                sz > 0,
                sy * sz <= 0x1000_0000,
        ;
    }
    let x = i / (sy * sz);
    let y = (i / sz) % sy;
    let z = i % sz;
    proof {
        let ii = i as int;
        let a = sy as int;
        let b = sz as int;
        assert(x as int == ii / (a * b));
        assert(ii / (a * b) <= ii && (ii / b) % a < a && ii % b < b) by (nonlinear_arith)
            requires
                a > 0,
                b > 0,
                ii >= 0,
        ;
    }
    IVec3 { x: x as i32, y: y as i32, z: z as i32 }
}

impl VoxelShape {
    /// Whether the voxels of the shape can be listed.
    pub open spec fn shape_ok(self) -> bool {
        match self {
            VoxelShape::FilledCuboid(size) => listable(size) || size.x <= 0 || size.y <= 0 || size.z <= 0,
            VoxelShape::Sphere(r) => r <= 0x200,
            VoxelShape::Random { size, .. } => listable(size) || size.x <= 0 || size.y <= 0 || size.z <= 0,
        }
    }

    /// The voxels of the shape, in order (`x` outermost, `z` innermost).
    pub fn iter(&self) -> (r: Vec<IVec3>)
        requires
            self.shape_ok(),
        ensures
            match *self {
                VoxelShape::FilledCuboid(size) => r@ == if listable(size) {
                    Seq::new(box_volume(size) as nat, |i: int| box_point(size, i))
                } else {
                    Seq::empty()
                },
                VoxelShape::Sphere(radius) => r@ == ball_points(radius as int, 8 * radius * radius * radius),
                VoxelShape::Random { size, seed } => if listable(size) {
                    r@ == drawn_points(size, seed_coins(seed, box_volume(size) as nat), box_volume(size))
                } else {
                    r@.len() == 0
                },
            },
    {
        match *self {
            VoxelShape::FilledCuboid(size) => {
                let mut v: Vec<IVec3> = Vec::new();
                if size.x <= 0 || size.y <= 0 || size.z <= 0 {
                    return v;
                }
                proof {
                    assert(size.y * size.z <= size.x * size.y * size.z && size.x * size.y <= size.x * size.y
                        * size.z) by (nonlinear_arith)
                        requires
                            size.x >= 1,
                            size.y >= 1,
                            size.z >= 1,
                    ;
                }
                let n = size.x as u64 * size.y as u64 * size.z as u64;
                let mut i: u64 = 0;
                while i < n
                    invariant
                        i <= n,
                        n == box_volume(size),
                        n <= 0x1000_0000,
                        size.y * size.z <= 0x1000_0000,
                        listable(size),
                        v@ == Seq::new(i as nat, |j: int| box_point(size, j)),
                    decreases n - i,
                {
                    let p = box_point_at(size, i);
                    v.push(p);
                    proof {
                        assert(v@ =~= Seq::new((i + 1) as nat, |j: int| box_point(size, j)));
                    }
                    i = i + 1;
                }
                v
            },
            VoxelShape::Sphere(radius) => {
                let r = radius as i64;
                let side = 2 * r;
                proof {
                    assert(side * side <= 0x10_0000 && side * side * side <= 0x4000_0000) by (nonlinear_arith)
                        requires
                            0 <= side <= 0x400,
                    ;
                    assert(side * side * side == 8 * radius * radius * radius) by (nonlinear_arith)
                        requires
                            side == 2 * radius,
                    ;
                    assert(side == 0 ==> side * side * side == 0) by (nonlinear_arith);
                }
                let n = (side * side * side) as u64;
                let size = IVec3 { x: side as i32, y: side as i32, z: side as i32 };
                let mut v: Vec<IVec3> = Vec::new();
                let mut i: u64 = 0;
                while i < n
                    invariant
                        i <= n,
                        0 <= r <= 0x200,
                        side == 2 * r,
                        n == side * side * side,
                        n <= 0x4000_0000,
                        side * side <= 0x10_0000,
                        n == 8 * radius * radius * radius,
                        side == 0 ==> n == 0,
                        size == (IVec3 { x: side as i32, y: side as i32, z: side as i32 }),
                        v@ == ball_points(r as int, i as int),
                    decreases n - i,
                {
                    if side > 0 {
                        let p = box_point_at(size, i);
                        let dx = p.x as i128 - r as i128;
                        let dy = p.y as i128 - r as i128;
                        let dz = p.z as i128 - r as i128;
                        proof {
                            assert(-0x8000_0200 <= dx <= 0x8000_0000);
                            assert(-0x8000_0200 <= dy <= 0x8000_0000);
                            assert(-0x8000_0200 <= dz <= 0x8000_0000);
                            lemma_square_bound(dx as int);
                            lemma_square_bound(dy as int);
                            lemma_square_bound(dz as int);
                            lemma_square_bound(r as int);
                        }
                        let sq = dx * dx + dy * dy + dz * dz;
                        let r2 = r as i128 * r as i128;
                        if sq < r2 {
                            v.push(p);
                        }
                    } else {
                        proof {
                            assert(false);
                        }
                    }
                    i = i + 1;
                }
                v
            },
            VoxelShape::Random { size, seed } => {
                let mut rng = seeded_coins(seed);
                let mut v: Vec<IVec3> = Vec::new();
                if size.x <= 0 || size.y <= 0 || size.z <= 0 {
                    return v;
                }
                proof {
                    assert(size.y * size.z <= size.x * size.y * size.z && size.x * size.y <= size.x * size.y
                        * size.z) by (nonlinear_arith)
                        requires
                            size.x >= 1,
                            size.y >= 1,
                            size.z >= 1,
                    ;
                }
                let n = size.x as u64 * size.y as u64 * size.z as u64;
                let mut i: u64 = 0;
                while i < n
                    invariant
                        i <= n,
                        n == box_volume(size),
                        n <= 0x1000_0000,
                        size.y * size.z <= 0x1000_0000,
                        listable(size),
                        rng.seed@ == seed,
                        rng.drawn@ == i,
                        v@ == drawn_points(size, seed_coins(seed, i as nat), i as int),
                    decreases n - i,
                {
                    let c = draw_half(&mut rng);
                    proof {
                        assert(drawn_points(size, seed_coins(seed, (i + 1) as nat), i as int) == drawn_points(
                            size,
                            seed_coins(seed, i as nat),
                            i as int,
                        )) by {
                            lemma_drawn_prefix(size, seed_coins(seed, i as nat), seed_coins(seed, (i + 1) as nat), i as int);
                        }
                        assert(seed_coins(seed, (i + 1) as nat)[i as int] == c);
                    }
                    if c {
                        let p = box_point_at(size, i);
                        v.push(p);
                    }
                    i = i + 1;
                }
                v
            },
        }
    }
}

proof fn lemma_square_bound(d: int)
    requires
        -0x8000_0200 <= d <= 0x8000_0200,
    ensures
        0 <= d * d <= 0x4000_0200_0004_0000,
{
    assert(0 <= d * d <= 0x4000_0200_0004_0000) by (nonlinear_arith)
        requires
            -0x8000_0200 <= d <= 0x8000_0200,
    ;
}

proof fn lemma_drawn_prefix(size: IVec3, a: Seq<bool>, b: Seq<bool>, n: int)
    requires
        0 <= n <= a.len(),
        n <= b.len(),
        forall|j: int| 0 <= j < n ==> a[j] == b[j],
    ensures
        drawn_points(size, a, n) == drawn_points(size, b, n),
    decreases n,
{
    if n > 0 {
        lemma_drawn_prefix(size, a, b, n - 1);
    }
}


/// A voxel that is empty or filled.
#[derive(Debug, Clone, Copy, PartialEq, Eq, Structural)]
pub struct BoolVoxel(pub bool);


impl Default for BoolVoxel {
    fn default() -> (r: Self)
        ensures
            r == BoolVoxel(false),
    {
        BoolVoxel(false)
    }
}

impl BoolVoxel {
    /// The empty voxel.
    pub fn empty() -> (r: BoolVoxel)
        ensures
            r == BoolVoxel(false),
    {
        BoolVoxel(false)
    }

    /// The filled voxel.
    pub fn filled() -> (r: BoolVoxel)
        ensures
            r == BoolVoxel(true),
    {
        BoolVoxel(true)
    }

    /// Whether the voxel is empty (and so invisible to the mesher).
    pub fn is_empty(&self) -> (r: bool)
        ensures
            r == (*self == BoolVoxel(false)),
    {
        !self.0
    }
}

/// Side of a chunk of the shape grid.
pub const SHAPE_CHUNK_SIDE: i32 = 16;

/// Voxels of a chunk of the shape grid.
pub const SHAPE_CHUNK_VOLUME: usize = 4096;

/// A chunk of boolean voxels, `x` fastest, then `y`, then `z`.
#[derive(Debug, Clone)]
pub struct Chunk(pub Vec<BoolVoxel>);

/// A coordinate divided by the chunk side, rounded toward zero.
pub open spec fn trunc16(a: i32) -> i32 {
    if a >= 0 {
        (a as int / 16) as i32
    } else {
        (-((-(a as int)) / 16)) as i32
    }
}

/// The chunk key under which the voxel at `p` is stored: its coordinates
/// divided by the chunk side, rounded toward zero.
pub open spec fn shape_chunk_of(p: IVec3) -> IVec3 {
    IVec3 { x: trunc16(p.x), y: trunc16(p.y), z: trunc16(p.z) }
}

/// The index in its chunk of the voxel at `p`, from its coordinates
/// rounded down modulo the chunk side.
pub open spec fn shape_offset(p: IVec3) -> int {
    (p.x as int % 16) + (p.y as int % 16) * 16 + (p.z as int % 16) * 256
}

/// The voxels stored for the points `v`: every chunk holding one of them,
/// with exactly the voxels of those points filled.
pub open spec fn holds_points(m: Map<u128, Seq<BoolVoxel>>, v: Seq<IVec3>) -> bool {
    &&& forall|k: u128|
        #[trigger] m.contains_key(k) <==> exists|i: int| 0 <= i < v.len() && pos_key(shape_chunk_of(#[trigger] v[i])) == k
    &&& forall|k: u128| #[trigger] m.contains_key(k) ==> m[k].len() == SHAPE_CHUNK_VOLUME
    &&& forall|k: u128, j: int|
        #![trigger m[k][j]]
        m.contains_key(k) && 0 <= j < SHAPE_CHUNK_VOLUME ==> (m[k][j] == BoolVoxel(true) <==> exists|i: int|
            0 <= i < v.len() && pos_key(shape_chunk_of(#[trigger] v[i])) == k && shape_offset(v[i]) == j)
            && (m[k][j] == BoolVoxel(true) || m[k][j] == BoolVoxel(false))
}

/// What looking up `p` in the stored voxels gives.
pub open spec fn lookup(m: Map<u128, Seq<BoolVoxel>>, p: IVec3) -> Option<BoolVoxel> {
    let k = pos_key(shape_chunk_of(p));
    if m.contains_key(k) {
        Some(m[k][shape_offset(p)])
    } else {
        None
    }
}

/// A sparse grid of boolean voxels, by chunk.
#[derive(Debug, Clone)]
pub struct Grid {
    pub chunks: HashMap<u128, Chunk>,
}

impl Grid {
    /// Every stored chunk has one voxel per position.
    pub open spec fn wf(&self) -> bool {
        forall|k: u128| #[trigger] self.chunks@.contains_key(k) ==> self.chunks@[k].0@.len() == SHAPE_CHUNK_VOLUME
    }

    /// The voxels of each stored chunk.
    pub open spec fn voxels(&self) -> Map<u128, Seq<BoolVoxel>> {
        self.chunks@.map_values(|c: Chunk| c.0@)
    }

    /// The grid with exactly the voxels of `vec` filled.
    pub fn from_vec(vec: Vec<IVec3>) -> (r: Grid)
        ensures
            r.wf(),
            holds_points(r.voxels(), vec@),
    {
        let mut grid = Grid { chunks: HashMap::new() };
        let mut n: usize = 0;
        proof {
            assert(grid.voxels() =~= Map::<u128, Seq<BoolVoxel>>::empty());
        }
        while n < vec.len()
            invariant
                n <= vec@.len(),
                grid.wf(),
                holds_points(grid.voxels(), vec@.subrange(0, n as int)),
            decreases vec.len() - n,
        {
            let pos = vec[n];
            let cp = IVec3 { x: trunc_div16(pos.x), y: trunc_div16(pos.y), z: trunc_div16(pos.z) };
            let off = offset16(pos);
            let k = cp.key();
            let ghost before = grid.voxels();
            let ghost s0 = vec@.subrange(0, n as int);
            let ghost s1 = vec@.subrange(0, n + 1);
            let mut chunk = match grid.chunks.remove(&k) {
                Some(c) => c,
                None => Chunk(empty_voxels()),
            };
            let ghost c0 = chunk.0@;
            proof {
                assert(cp == shape_chunk_of(pos));
                assert(chunk.0@.len() == SHAPE_CHUNK_VOLUME);
                assert(before.contains_key(k) ==> c0 == before[k]);
                assert(!before.contains_key(k) ==> c0 =~= Seq::new(SHAPE_CHUNK_VOLUME as nat, |j: int| BoolVoxel(false)));
            }
            chunk.0.set(off, BoolVoxel(true));
            grid.chunks.insert(k, chunk);
            proof {
                assert(s1 =~= s0.push(pos));
                assert(grid.voxels() =~= before.insert(k, chunk.0@));
                lemma_holds_points_step(before, grid.voxels(), s0, pos, chunk.0@);
            }
            n = n + 1;
        }
        proof {
            assert(vec@.subrange(0, vec@.len() as int) =~= vec@);
        }
        grid
    }

    /// The voxel at `pos`, if its chunk is stored.
    pub fn get_at(&self, pos: IVec3) -> (r: Option<BoolVoxel>)
        requires
            self.wf(),
        ensures
            r == lookup(self.voxels(), pos),
    {
        let cp = IVec3 { x: trunc_div16(pos.x), y: trunc_div16(pos.y), z: trunc_div16(pos.z) };
        let k = cp.key();
        match self.chunks.get(&k) {
            Some(chunk) => {
                let off = offset16(pos);
                if off < chunk.0.len() {
                    Some(chunk.0[off])
                } else {
                    proof {
                        assert(false);
                    }
                    None
                }
            },
            None => None,
        }
    }
}

proof fn lemma_holds_points_step(
    before: Map<u128, Seq<BoolVoxel>>,
    after: Map<u128, Seq<BoolVoxel>>,
    s0: Seq<IVec3>,
    pos: IVec3,
    c: Seq<BoolVoxel>,
)
    requires
        holds_points(before, s0),
        0 <= shape_offset(pos) < SHAPE_CHUNK_VOLUME,
        ({
            let k = pos_key(shape_chunk_of(pos));
            let base = if before.contains_key(k) {
                before[k]
            } else {
                Seq::new(SHAPE_CHUNK_VOLUME as nat, |j: int| BoolVoxel(false))
            };
            &&& c == base.update(shape_offset(pos), BoolVoxel(true))
            &&& after == before.insert(k, c)
        }),
    ensures
        holds_points(after, s0.push(pos)),
{
    let k = pos_key(shape_chunk_of(pos));
    let off = shape_offset(pos);
    let s1 = s0.push(pos);
    assert forall|kk: u128|
        #[trigger] after.contains_key(kk) <==> exists|i: int|
            0 <= i < s1.len() && pos_key(shape_chunk_of(#[trigger] s1[i])) == kk by {
        if kk == k {
            assert(s1[s0.len() as int] == pos);
        } else if exists|i: int| 0 <= i < s1.len() && pos_key(shape_chunk_of(#[trigger] s1[i])) == kk {
            let i = choose|i: int| 0 <= i < s1.len() && pos_key(shape_chunk_of(#[trigger] s1[i])) == kk;
            assert(s0[i] == s1[i]);
        } else if before.contains_key(kk) {
            let i = choose|i: int| 0 <= i < s0.len() && pos_key(shape_chunk_of(#[trigger] s0[i])) == kk;
            assert(s1[i] == s0[i]);
        }
    }
    assert forall|kk: u128, j: int|
        after.contains_key(kk) && 0 <= j < SHAPE_CHUNK_VOLUME implies (#[trigger] after[kk][j] == BoolVoxel(true)
            <==> exists|i: int|
            0 <= i < s1.len() && pos_key(shape_chunk_of(#[trigger] s1[i])) == kk && shape_offset(s1[i]) == j) && (
        after[kk][j] == BoolVoxel(true) || after[kk][j] == BoolVoxel(false)) by {
        if exists|i: int| 0 <= i < s1.len() && pos_key(shape_chunk_of(#[trigger] s1[i])) == kk && shape_offset(s1[i]) == j {
            let i = choose|i: int|
                0 <= i < s1.len() && pos_key(shape_chunk_of(#[trigger] s1[i])) == kk && shape_offset(s1[i]) == j;
            if i < s0.len() {
                assert(s0[i] == s1[i]);
            }
        }
        if kk != k {
            assert(after[kk] == before[kk]);
            if before.contains_key(kk) && before[kk][j] == BoolVoxel(true) {
                let i = choose|i: int|
                    0 <= i < s0.len() && pos_key(shape_chunk_of(#[trigger] s0[i])) == kk && shape_offset(s0[i]) == j;
                assert(s1[i] == s0[i]);
            }
        } else if j != off {
            if before.contains_key(kk) && before[kk][j] == BoolVoxel(true) {
                let i = choose|i: int|
                    0 <= i < s0.len() && pos_key(shape_chunk_of(#[trigger] s0[i])) == kk && shape_offset(s0[i]) == j;
                assert(s1[i] == s0[i]);
            }
        } else {
            assert(s1[s0.len() as int] == pos);
        }
    }
    assert forall|kk: u128| #[trigger] after.contains_key(kk) implies after[kk].len() == SHAPE_CHUNK_VOLUME by {
    }
}

/// `a` divided by the chunk side, rounded toward zero.
fn trunc_div16(a: i32) -> (r: i32)
    ensures
        r == trunc16(a),
{
    if a >= 0 {
        a / 16
    } else {
        let n = -(a as i64);
        (-(n / 16)) as i32
    }
}

/// The index in its chunk of the voxel at `p`.
fn offset16(p: IVec3) -> (r: usize)
    ensures
        r == shape_offset(p),
        r < SHAPE_CHUNK_VOLUME,
{
    let x = match p.x.checked_rem_euclid(16) {
        Some(v) => v,
        None => 0,
    };
    let y = match p.y.checked_rem_euclid(16) {
        Some(v) => v,
        None => 0,
    };
    let z = match p.z.checked_rem_euclid(16) {
        Some(v) => v,
        None => 0,
    };
    (x + y * 16 + z * 256) as usize
}

/// A chunk of empty voxels.
fn empty_voxels() -> (r: Vec<BoolVoxel>)
    ensures
        r@.len() == SHAPE_CHUNK_VOLUME,
        forall|j: int| 0 <= j < SHAPE_CHUNK_VOLUME ==> r@[j] == BoolVoxel(false),
{
    let mut r: Vec<BoolVoxel> = Vec::new();
    let mut i: usize = 0;
    while i < SHAPE_CHUNK_VOLUME
        invariant
            i <= SHAPE_CHUNK_VOLUME,
            r@.len() == i,
            forall|j: int| 0 <= j < i ==> r@[j] == BoolVoxel(false),
        decreases SHAPE_CHUNK_VOLUME - i,
    {
        r.push(BoolVoxel(false));
        i = i + 1;
    }
    r
}

/// Every point the grid was made from reads back as filled.
pub proof fn law_points_read_back(m: Map<u128, Seq<BoolVoxel>>, v: Seq<IVec3>, i: int)
    requires
        holds_points(m, v),
        0 <= i < v.len(),
    ensures
        lookup(m, v[i]) == Some(BoolVoxel(true)),
{
    let k = pos_key(shape_chunk_of(v[i]));
    assert(m.contains_key(k));
    let j = shape_offset(v[i]);
    assert(0 <= j < SHAPE_CHUNK_VOLUME);
    assert(m[k][j] == BoolVoxel(true));
}

/// A position with no negative coordinate reads back as filled only if it
/// is one of the points the grid was made from.
pub proof fn law_only_points_filled(m: Map<u128, Seq<BoolVoxel>>, v: Seq<IVec3>, p: IVec3)
    requires
        holds_points(m, v),
        p.x >= 0 && p.y >= 0 && p.z >= 0,
        forall|i: int| 0 <= i < v.len() ==> (#[trigger] v[i]).x >= 0 && v[i].y >= 0 && v[i].z >= 0,
        lookup(m, p) == Some(BoolVoxel(true)),
    ensures
        v.contains(p),
{
    let k = pos_key(shape_chunk_of(p));
    let j = shape_offset(p);
    assert(m[k][j] == BoolVoxel(true));
    let i = choose|i: int| 0 <= i < v.len() && pos_key(shape_chunk_of(#[trigger] v[i])) == k && shape_offset(v[i]) == j;
    crate::ivec::lemma_pos_key_injective(shape_chunk_of(v[i]), shape_chunk_of(p));
    lemma_same_cell(v[i], p);
}

proof fn lemma_same_axis(a: int, b: int)
    requires
        a >= 0,
        b >= 0,
        a / 16 == b / 16,
        a % 16 == b % 16,
    ensures
        a == b,
{
    assert(a == (a / 16) * 16 + a % 16) by (nonlinear_arith)
        requires
            a >= 0,
    ;
    assert(b == (b / 16) * 16 + b % 16) by (nonlinear_arith)
        requires
            b >= 0,
    ;
}

proof fn lemma_same_cell(q: IVec3, p: IVec3)
    requires
        p.x >= 0 && p.y >= 0 && p.z >= 0,
        q.x >= 0 && q.y >= 0 && q.z >= 0,
        shape_chunk_of(q) == shape_chunk_of(p),
        shape_offset(q) == shape_offset(p),
    ensures
        q == p,
{
    let (qx, qy, qz) = (q.x as int % 16, q.y as int % 16, q.z as int % 16);
    let (px, py, pz) = (p.x as int % 16, p.y as int % 16, p.z as int % 16);
    assert(0 <= qx < 16 && 0 <= qy < 16 && 0 <= qz < 16);
    assert(0 <= px < 16 && 0 <= py < 16 && 0 <= pz < 16);
    assert(qx == px && qy == py && qz == pz);
    lemma_same_axis(q.x as int, p.x as int);
    lemma_same_axis(q.y as int, p.y as int);
    lemma_same_axis(q.z as int, p.z as int);
}

} // verus!
