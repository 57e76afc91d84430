//! Cubic chunks of blocks and the mapping between positions and indices.
use vstd::prelude::*;
use crate::{CHUNK_AREA, CHUNK_SIDE, CHUNK_VOLUME};
use crate::block::{Block, BlockBlueprint, Blueprints, BlockType, LightType, MAX_LIGHT};
use crate::flagbank::FlagBank;
use crate::ivec::IVec3;

verus! {

/// Whether `p` lies inside a chunk, relative to its origin.
pub open spec fn in_chunk(p: IVec3) -> bool {
    &&& 0 <= p.x < 32
    &&& 0 <= p.y < 32
    &&& 0 <= p.z < 32
}

/// Index of the block at `p` in a chunk's block array (`x` major, `z` minor).
pub open spec fn index_of(p: IVec3) -> int {
    p.x * 1024 + p.y * 32 + p.z
}

/// Position, relative to the chunk origin, of the block stored at `i`.
pub open spec fn pos_of(i: int) -> IVec3 {
    IVec3 { x: (i / 1024) as i32, y: ((i / 32) % 32) as i32, z: (i % 32) as i32 }
}

/// Every position inside a chunk has an index in the block array, and the
/// position stored at that index is the position itself.
pub proof fn lemma_index_of_pos(p: IVec3)
    requires
        in_chunk(p),
    ensures
        0 <= index_of(p) < CHUNK_VOLUME,
        pos_of(index_of(p)) == p,
{
    let i = index_of(p);
    assert(i / 1024 == p.x && (i / 32) % 32 == p.y && i % 32 == p.z) by (nonlinear_arith)
        requires
            i == p.x * 1024 + p.y * 32 + p.z,
            0 <= p.x < 32,
            0 <= p.y < 32,
            0 <= p.z < 32,
    ;
}

/// Every index of the block array holds a position inside the chunk, whose
/// index is the index itself.
pub proof fn lemma_pos_of_index(i: int)
    requires
        0 <= i < CHUNK_VOLUME,
    ensures
        in_chunk(pos_of(i)),
        index_of(pos_of(i)) == i,
{
    assert(0 <= i / 1024 < 32 && 0 <= (i / 32) % 32 < 32 && 0 <= i % 32 < 32 && (i / 1024) * 1024
        + ((i / 32) % 32) * 32 + i % 32 == i) by (nonlinear_arith)
        requires
            0 <= i < 32768,
    ;
}

/// Distinct positions inside a chunk have distinct indices.
pub proof fn lemma_index_injective(p: IVec3, q: IVec3)
    requires
        in_chunk(p),
        in_chunk(q),
        index_of(p) == index_of(q),
    ensures
        p == q,
{
    lemma_index_of_pos(p);
    lemma_index_of_pos(q);
}

/// Index of `xyz` in a chunk's block array.
pub fn xyz2idx(xyz: IVec3) -> (r: usize)
    requires
        in_chunk(xyz),
    ensures
        r == index_of(xyz),
        r < CHUNK_VOLUME,
{
    xyz.x as usize * CHUNK_AREA + xyz.y as usize * CHUNK_SIDE + xyz.z as usize
}

/// Position of the block at `index` of a chunk's block array.
pub fn idx2xyz(index: usize) -> (r: IVec3)
    ensures
        r == (IVec3 {
            x: (index / 1024) as i32,
            y: ((index / 32) % 32) as i32,
            z: (index % 32) as i32,
        }),
        index < CHUNK_VOLUME ==> r == pos_of(index as int),
{
    let layer = index / CHUNK_SIDE;
    proof {
        assert(layer / 32 == index / 1024) by (nonlinear_arith)
            requires
                layer == index / 32,
        ;
    }
    IVec3 {
        x: (layer / CHUNK_SIDE) as i32,
        y: (layer % CHUNK_SIDE) as i32,
        z: (index % CHUNK_SIDE) as i32,
    }
}

/// Whether `xyz` lies inside a chunk.
pub fn contains(xyz: &IVec3) -> (r: bool)
    ensures
        r == in_chunk(*xyz),
{
    0 <= xyz.x && xyz.x < 32 && 0 <= xyz.y && xyz.y < 32 && 0 <= xyz.z && xyz.z < 32
}

/// A cube of `CHUNK_VOLUME` blocks with a version and flags of its own.
#[derive(Debug, Clone)]
pub struct Chunk {
    pub blocks: Vec<Block>,
    pub version: u32,
    pub properties: FlagBank,
}

impl Chunk {
    /// The block array holds exactly one block per position.
    pub open spec fn wf(&self) -> bool {
        self.blocks@.len() == CHUNK_VOLUME
    }

    /// The block at `p`, relative to the chunk origin.
    pub open spec fn block_at(&self, p: IVec3) -> Block {
        self.blocks@[index_of(p)]
    }

    /// A chunk filled with copies of `block`, version zero and no flag.
    pub fn uniform(block: Block) -> (r: Chunk)
        ensures
            r.wf(),
            forall|i: int| 0 <= i < CHUNK_VOLUME ==> r.blocks@[i] == block,
            r.version == 0,
            r.properties@ == Set::<u8>::empty(),
    {
        let mut blocks: Vec<Block> = Vec::with_capacity(CHUNK_VOLUME);
        let mut i: usize = 0;
        while i < CHUNK_VOLUME
            invariant
                i <= CHUNK_VOLUME,
                blocks@.len() == i,
                forall|j: int| 0 <= j < i ==> blocks@[j] == block,
            decreases CHUNK_VOLUME - i,
        {
            blocks.push(block);
            i = i + 1;
        }
        Chunk { blocks, version: 0, properties: FlagBank::empty() }
    }

    /// A chunk of default blocks (identifier zero, no light, no flag).
    pub fn empty() -> (r: Chunk)
        ensures
            r.wf(),
            forall|i: int|
                0 <= i < CHUNK_VOLUME ==> r.blocks@[i].id == 0 && r.blocks@[i].light == 0
                    && r.blocks@[i].properties@ == Set::<u8>::empty(),
            r.version == 0,
            r.properties@ == Set::<u8>::empty(),
    {
        Chunk::uniform(Block::default())
    }

    /// A chunk made only of stone.
    pub fn filled(bp: &Blueprints) -> (r: Chunk)
        requires
            bp.wf(),
            BlockType::Stone.id_spec() < bp.blocks@.len(),
        ensures
            r.wf(),
            forall|i: int|
                0 <= i < CHUNK_VOLUME ==> r.blocks@[i].id == BlockType::Stone.id_spec()
                    && r.blocks@[i].light == 0,
            r.version == 0,
            r.properties@ == Set::<u8>::empty(),
    {
        let stone = Block::new(bp.get(BlockType::Stone.id()));
        Chunk::uniform(stone)
    }

    /// A chunk of stone up to half its height and air above, each block as
    /// its blueprint makes it.
    pub fn flatland(bp: &Blueprints) -> (r: Chunk)
        requires
            bp.wf(),
            BlockType::Stone.id_spec() < bp.blocks@.len(),
        ensures
            r.wf(),
            forall|i: int|
                0 <= i < CHUNK_VOLUME ==> r.blocks@[i].id == (if pos_of(i).y > 16 {
                    BlockType::Air.id_spec()
                } else {
                    BlockType::Stone.id_spec()
                }),
            forall|i: int|
                0 <= i < CHUNK_VOLUME ==> crate::block::made_from(
                    #[trigger] r.blocks@[i],
                    bp.blocks@[if pos_of(i).y > 16 {
                        BlockType::Air.id_spec() as int
                    } else {
                        BlockType::Stone.id_spec() as int
                    }],
                ),
            r.version == 0,
    {
        let mut chunk = Chunk::empty();
        let air = bp.get(BlockType::Air.id());
        let stone = bp.get(BlockType::Stone.id());
        let mut i: usize = 0;
        while i < CHUNK_VOLUME
            invariant
                bp.wf(),
                BlockType::Stone.id_spec() < bp.blocks@.len(),
                *air == bp.blocks@[0],
                *stone == bp.blocks@[1],
                chunk.wf(),
                chunk.version == 0,
                i <= CHUNK_VOLUME,
                forall|j: int|
                    0 <= j < i ==> chunk.blocks@[j].id == (if pos_of(j).y > 16 {
                        0u8
                    } else {
                        1u8
                    }),
                forall|j: int|
                    0 <= j < i ==> crate::block::made_from(
                        #[trigger] chunk.blocks@[j],
                        bp.blocks@[if pos_of(j).y > 16 {
                            0int
                        } else {
                            1int
                        }],
                    ),
            decreases CHUNK_VOLUME - i,
        {
            let xyz = idx2xyz(i);
            proof {
                lemma_pos_of_index(i as int);
                assert(index_of(xyz) == i);
                assert(bp.blocks@[0].wf());
                assert(bp.blocks@[1].wf());
            }
            let ghost before = chunk.blocks@;
            if xyz.y > (CHUNK_SIDE / 2) as i32 {
                chunk.set_block(xyz, air);
            } else {
                chunk.set_block(xyz, stone);
            }
            proof {
                assert forall|j: int| 0 <= j < i implies chunk.blocks@[j] == before[j] by {}
            }
            i = i + 1;
        }
        chunk
    }

    /// A copy of the block array.
    pub fn clone_blocks(&self) -> (r: Vec<Block>)
        ensures
            r@ == self.blocks@,
    {
        let mut r: Vec<Block> = Vec::with_capacity(self.blocks.len());
        let mut i: usize = 0;
        while i < self.blocks.len()
            invariant
                i <= self.blocks@.len(),
                r@ == self.blocks@.subrange(0, i as int),
            decreases self.blocks.len() - i,
        {
            r.push(self.blocks[i]);
            i = i + 1;
        }
        r
    }

    /// Replaces the block at `xyz` with a fresh block of the blueprint.
    pub fn set_block(&mut self, xyz: IVec3, bp: &BlockBlueprint)
        requires
            old(self).wf(),
            in_chunk(xyz),
            bp.wf(),
        ensures
            final(self).wf(),
            final(self).version == old(self).version,
            final(self).properties == old(self).properties,
            final(self).blocks@ == old(self).blocks@.update(
                index_of(xyz),
                final(self).blocks@[index_of(xyz)],
            ),
            final(self).block_at(xyz).id == bp.id,
            final(self).block_at(xyz).light == 0,
            forall|f: u8| final(self).block_at(xyz).properties@.contains(f) <==> bp.flags@.contains(f),
    {
        let i = xyz2idx(xyz);
        self.blocks.set(i, Block::new(bp));
    }

    /// Replaces the block at `xyz` with `block`.
    pub fn set_entire_block(&mut self, xyz: IVec3, block: Block)
        requires
            old(self).wf(),
            in_chunk(xyz),
        ensures
            final(self).wf(),
            final(self).version == old(self).version,
            final(self).properties == old(self).properties,
            final(self).blocks@ == old(self).blocks@.update(index_of(xyz), block),
    {
        let i = xyz2idx(xyz);
        self.blocks.set(i, block);
    }

    /// Sets the light of kind `light_type` of the block at `xyz` to `v`.
    pub fn set_block_light(&mut self, xyz: IVec3, light_type: LightType, v: u8)
        requires
            old(self).wf(),
            in_chunk(xyz),
            v <= MAX_LIGHT,
        ensures
            final(self).wf(),
            final(self).version == old(self).version,
            final(self).properties == old(self).properties,
            final(self).blocks@ == old(self).blocks@.update(
                index_of(xyz),
                final(self).block_at(xyz),
            ),
            final(self).block_at(xyz).light_of(light_type) == v,
            forall|o: LightType|
                o != light_type ==> final(self).block_at(xyz).light_of(o) == old(self).block_at(
                    xyz,
                ).light_of(o),
            final(self).block_at(xyz).id == old(self).block_at(xyz).id,
            final(self).block_at(xyz).properties == old(self).block_at(xyz).properties,
    {
        let i = xyz2idx(xyz);
        let mut b = self.blocks[i];
        b.set_light(light_type, v);
        self.blocks.set(i, b);
    }

    /// The block at `xyz`.
    pub fn read_block(&self, xyz: IVec3) -> (r: Block)
        requires
            self.wf(),
            in_chunk(xyz),
        ensures
            r == self.block_at(xyz),
    {
        self.blocks[xyz2idx(xyz)]
    }
}

} // verus!
