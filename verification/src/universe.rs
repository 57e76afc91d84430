//! The universe: the loaded chunks, keyed by the position of their origin.
use vstd::prelude::*;
use std::collections::HashMap;
use crate::block::{Block, BlockBlueprint, ChunkFlag};
use crate::chunk::{in_chunk, index_of, xyz2idx, Chunk};
use crate::ivec::{lemma_pos_key_injective, pos_key, IVec3};

verus! {

broadcast use vstd::std_specs::hash::group_hash_axioms;

/// Origin of the chunk holding `p` along one axis: `p` rounded down to a
/// multiple of the chunk side.
pub open spec fn axis_origin(v: i32) -> int {
    (v as int / 32) * 32
}

/// Origin of the chunk that holds the block at `p`.
pub open spec fn chunk_origin(p: IVec3) -> IVec3 {
    IVec3 { x: axis_origin(p.x) as i32, y: axis_origin(p.y) as i32, z: axis_origin(p.z) as i32 }
}

/// Position of the block at `p` relative to the origin of its chunk.
pub open spec fn inner_pos(p: IVec3) -> IVec3 {
    IVec3 { x: (p.x as int % 32) as i32, y: (p.y as int % 32) as i32, z: (p.z as int % 32) as i32 }
}

/// Whether `p` is the origin of a chunk.
pub open spec fn is_chunk_origin(p: IVec3) -> bool {
    p.x as int % 32 == 0 && p.y as int % 32 == 0 && p.z as int % 32 == 0
}

/// Splits one coordinate into the origin of its chunk and the offset in it.
pub(crate) fn split_axis(v: i32) -> (r: (i32, i32))
    ensures
        r.0 == axis_origin(v),
        r.1 == v as int % 32,
        0 <= r.1 < 32,
        r.0 + r.1 == v,
{
    let q = match v.checked_div_euclid(32) {
        Some(q) => q,
        None => 0,
    };
    let m = match v.checked_rem_euclid(32) {
        Some(m) => m,
        None => 0,
    };
    proof {
        assert(v as int == (v as int / 32) * 32 + v as int % 32);
    }
    (q * 32, m)
}

/// The chunks of the world.
#[derive(Debug)]
pub struct Universe {
    pub chunks: HashMap<u128, Chunk>,
}

impl Universe {
    /// Every chunk is well formed and is stored under the key of an origin.
    pub open spec fn wf(&self) -> bool {
        forall|k: u128| #[trigger] self.chunks@.contains_key(k) ==> self.chunks@[k].wf()
    }

    /// The chunk whose origin is `origin`, if loaded.
    pub open spec fn chunk_at(&self, origin: IVec3) -> Option<Chunk> {
        if self.chunks@.contains_key(pos_key(origin)) {
            Some(self.chunks@[pos_key(origin)])
        } else {
            None
        }
    }

    /// The chunk stored under `key`, if any.
    pub open spec fn chunk_at_key(&self, key: u128) -> Option<Chunk> {
        if self.chunks@.contains_key(key) {
            Some(self.chunks@[key])
        } else {
            None
        }
    }

    /// The block at the world position `p`, if its chunk is loaded.
    pub open spec fn block_at(&self, p: IVec3) -> Option<Block> {
        match self.chunk_at(chunk_origin(p)) {
            Some(c) => Some(c.block_at(inner_pos(p))),
            None => None,
        }
    }

    /// A universe with no chunk.
    pub fn new() -> (r: Universe)
        ensures
            r.wf(),
            r.chunks@ == Map::<u128, Chunk>::empty(),
    {
        Universe { chunks: HashMap::new() }
    }

    /// The origin of the chunk holding `pos` and the position of `pos` in it.
    pub fn pos_to_chunk_and_inner(&self, pos: &IVec3) -> (r: (IVec3, IVec3))
        ensures
            r.0 == chunk_origin(*pos),
            r.1 == inner_pos(*pos),
            in_chunk(r.1),
            is_chunk_origin(r.0),
            r.0.x + r.1.x == pos.x,
            r.0.y + r.1.y == pos.y,
            r.0.z + r.1.z == pos.z,
    {
        let (cx, ix) = split_axis(pos.x);
        let (cy, iy) = split_axis(pos.y);
        let (cz, iz) = split_axis(pos.z);
        (IVec3 { x: cx, y: cy, z: cz }, IVec3 { x: ix, y: iy, z: iz })
    }

    /// Whether the chunk with origin `origin` is loaded.
    pub fn contains_chunk(&self, origin: &IVec3) -> (r: bool)
        ensures
            r == self.chunk_at(*origin).is_some(),
    {
        self.chunks.contains_key(&origin.key())
    }

    /// The chunk with origin `origin`, if loaded.
    pub fn get_chunk(&self, origin: &IVec3) -> (r: Option<&Chunk>)
        ensures
            match r {
                Some(c) => self.chunk_at(*origin) == Some(*c),
                None => self.chunk_at(*origin).is_none(),
            },
    {
        self.chunks.get(&origin.key())
    }

    /// Loads `chunk` at `origin`, replacing any chunk there.
    pub fn insert_chunk(&mut self, origin: IVec3, chunk: Chunk)
        requires
            old(self).wf(),
            chunk.wf(),
        ensures
            final(self).wf(),
            final(self).chunks@ == old(self).chunks@.insert(pos_key(origin), chunk),
    {
        let k = origin.key();
        self.chunks.insert(k, chunk);
    }

    /// Unloads the chunk at `origin` and hands it back.
    pub fn remove_chunk(&mut self, origin: &IVec3) -> (r: Option<Chunk>)
        requires
            old(self).wf(),
        ensures
            final(self).wf(),
            final(self).chunks@ == old(self).chunks@.remove(pos_key(*origin)),
            r == old(self).chunk_at(*origin),
    {
        let k = origin.key();
        self.chunks.remove(&k)
    }

    /// The block at `pos`, if its chunk is loaded.
    pub fn read_chunk(&self, pos: &IVec3) -> (r: Option<Block>)
        requires
            self.wf(),
        ensures
            r == self.block_at(*pos),
    {
        let (chunk_pos, inner_pos) = self.pos_to_chunk_and_inner(pos);
        match self.chunks.get(&chunk_pos.key()) {
            Some(chunk) => {
                proof {
                    assert(self.chunks@.contains_key(pos_key(chunk_pos)));
                }
                Some(chunk.read_block(inner_pos))
            },
            None => None,
        }
    }

    /// Replaces the block at `pos` with `block` if its chunk is loaded; the
    /// chunk is then flagged as updated and its version advances by one.
    pub fn set_chunk_block(&mut self, pos: &IVec3, block: Block)
        requires
            old(self).wf(),
        ensures
            final(self).wf(),
            ({
                let o = chunk_origin(*pos);
                match old(self).chunk_at(o) {
                    Some(c) => final(self).chunks@.dom() == old(self).chunks@.dom()
                        && final(self).chunks@ == old(self).chunks@.insert(
                        pos_key(o),
                        Chunk {
                            blocks: final(self).chunks@[pos_key(o)].blocks,
                            version: c.version.wrapping_add(1),
                            properties: final(self).chunks@[pos_key(o)].properties,
                        },
                    ) && final(self).chunks@[pos_key(o)].blocks@ == c.blocks@.update(
                        index_of(inner_pos(*pos)),
                        block,
                    ) && final(self).chunks@[pos_key(o)].properties@ == c.properties@.insert(
                        ChunkFlag::Updated.index_spec(),
                    ),
                    None => final(self).chunks@ == old(self).chunks@,
                }
            }),
    {
        let (chunk_pos, inner_pos) = self.pos_to_chunk_and_inner(pos);
        let k = chunk_pos.key();
        match self.chunks.remove(&k) {
            Some(mut chunk) => {
                proof {
                    assert(old(self).chunks@.contains_key(k));
                    assert(chunk.wf());
                }
                chunk.set_entire_block(inner_pos, block);
                chunk.properties.set(ChunkFlag::Updated.index());
                chunk.version = chunk.version.wrapping_add(1);
                self.chunks.insert(k, chunk);
                proof {
                    assert(self.chunks@ =~= old(self).chunks@.insert(k, chunk));
                    assert(self.chunks@.dom() =~= old(self).chunks@.dom());
                }
            },
            None => {
                proof {
                    assert(self.chunks@ =~= old(self).chunks@);
                }
            },
        }
    }

    /// Replaces the block at `pos` with a fresh block of the blueprint, with
    /// the same bookkeeping as [`Universe::set_chunk_block`].
    pub fn set_chunk(&mut self, pos: &IVec3, bp: &BlockBlueprint)
        requires
            old(self).wf(),
            bp.wf(),
        ensures
            final(self).wf(),
            ({
                let o = chunk_origin(*pos);
                match old(self).chunk_at(o) {
                    Some(c) => {
                        let n = final(self).chunks@[pos_key(o)];
                        &&& final(self).chunks@.dom() == old(self).chunks@.dom()
                        &&& n.version == c.version.wrapping_add(1)
                        &&& n.properties@ == c.properties@.insert(ChunkFlag::Updated.index_spec())
                        &&& n.blocks@ == c.blocks@.update(
                            index_of(inner_pos(*pos)),
                            n.blocks@[index_of(inner_pos(*pos))],
                        )
                        &&& n.blocks@[index_of(inner_pos(*pos))].id == bp.id
                        &&& n.blocks@[index_of(inner_pos(*pos))].light == 0
                        &&& forall|f: u8|
                            n.blocks@[index_of(inner_pos(*pos))].properties@.contains(f)
                                <==> bp.flags@.contains(f)
                        &&& forall|k: u128|
                            k != pos_key(o) && old(self).chunks@.contains_key(k)
                                ==> final(self).chunks@[k] == old(self).chunks@[k]
                    },
                    None => final(self).chunks@ == old(self).chunks@,
                }
            }),
    {
        let block = Block::new(bp);
        self.set_chunk_block(pos, block);
    }
}

impl Default for Universe {
    fn default() -> (r: Self)
        ensures
            r.wf(),
            r.chunks@ == Map::<u128, Chunk>::empty(),
    {
        Universe::new()
    }
}

/// The storage of voxels, to install in an application: an empty universe.
#[derive(Debug, Clone, Copy)]
pub struct VoxelStoragePlugin;

impl VoxelStoragePlugin {
    /// The resource the plugin installs: a universe with no chunk.
    pub fn build(&self) -> (r: Universe)
        ensures
            r.wf(),
            r.chunks@ == Map::<u128, Chunk>::empty(),
    {
        Universe::new()
    }
}

/// Writing a block and reading it back gives the written block, and leaves
/// every other position of the universe as it was.
pub proof fn law_write_then_read(before: Universe, after: Universe, pos: IVec3, block: Block, other: IVec3)
    requires
        before.wf(),
        before.block_at(pos).is_some(),
        after.chunks@ == before.chunks@.insert(
            pos_key(chunk_origin(pos)),
            Chunk {
                blocks: after.chunks@[pos_key(chunk_origin(pos))].blocks,
                version: after.chunks@[pos_key(chunk_origin(pos))].version,
                properties: after.chunks@[pos_key(chunk_origin(pos))].properties,
            },
        ),
        after.chunks@[pos_key(chunk_origin(pos))].blocks@ == before.chunk_at(
            chunk_origin(pos),
        ).unwrap().blocks@.update(index_of(inner_pos(pos)), block),
    ensures
        after.block_at(pos) == Some(block),
        other != pos ==> after.block_at(other) == before.block_at(other),
{
    let o = chunk_origin(pos);
    if other != pos {
        let oo = chunk_origin(other);
        if pos_key(oo) == pos_key(o) {
            lemma_pos_key_injective(oo, o);
            lemma_inner_distinct(pos, other);
        }
    }
}

/// The position of a block relative to its chunk lies inside the chunk.
pub proof fn lemma_inner_in_chunk(p: IVec3)
    ensures
        in_chunk(inner_pos(p)),
{
}

proof fn lemma_inner_distinct(p: IVec3, q: IVec3)
    requires
        chunk_origin(p) == chunk_origin(q),
        p != q,
    ensures
        index_of(inner_pos(p)) != index_of(inner_pos(q)),
{
    assert(p.x as int == axis_origin(p.x) + p.x as int % 32);
    assert(p.y as int == axis_origin(p.y) + p.y as int % 32);
    assert(p.z as int == axis_origin(p.z) + p.z as int % 32);
    assert(q.x as int == axis_origin(q.x) + q.x as int % 32);
    assert(q.y as int == axis_origin(q.y) + q.y as int % 32);
    assert(q.z as int == axis_origin(q.z) + q.z as int % 32);
    if index_of(inner_pos(p)) == index_of(inner_pos(q)) {
        crate::chunk::lemma_index_injective(inner_pos(p), inner_pos(q));
    }
}

} // verus!
