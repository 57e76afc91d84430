//! The passes that turn a requested chunk into a generated, lit chunk, and
//! the bookkeeping of the requests.
use vstd::prelude::*;
use std::collections::HashMap;
use crate::block::{Block, Blueprints, LightType, MAX_LIGHT};
use crate::chunk::{idx2xyz, in_chunk, index_of, pos_of, Chunk};
use crate::ivec::{pos_key, IVec2, IVec3};
use crate::universe::Universe;
use crate::{CHUNK_AREA, CHUNK_SIDE, CHUNK_VOLUME};

verus! {

broadcast use vstd::std_specs::hash::group_hash_axioms;

/// Below this many loaded chunks the world counts as nearly empty.
pub const BLOCK_GENERATION_LOW_THRESHOLD: usize = 1000;

/// How many times more blocks are generated per tick in a nearly empty world.
pub const BLOCK_GENERATION_LOW_MULTIPLIER: usize = 4;

/// Blocks generated per tick.
pub const MAX_BLOCK_GENERATION_PER_FRAME: usize = 20000;

/// The stage a requested chunk has reached.
#[derive(Debug, Clone, Copy, PartialEq, Eq, Structural)]
pub enum GenerationPass {
    /// The chunk is requesting for blocks to be generated
    Blocks,
    /// The chunk is waiting on the chunk above to be done before reverting to `Lighting`
    WaitingForSunbeams,
    /// The chunk is requesting for sunbeams to be propagated through it
    Sunbeams,
    /// The chunk is requesting biome to be added
    Biome,
    /// The chunk is requesting lighting to be recalculated
    Lighting,
    /// The chunk is ready to be added to the universe
    Done,
}

impl Default for GenerationPass {
    fn default() -> (r: Self)
        ensures
            r == GenerationPass::Blocks,
    {
        GenerationPass::Blocks
    }
}

/// A chunk being generated.
#[derive(Debug)]
pub struct ChunkGenerationState {
    pub chunk: Option<Chunk>,
    pub pos: IVec3,
    pub current_block: usize,
    pub pass: GenerationPass,
    /// Per column (`x + z * CHUNK_SIDE`), the lowest height of its sun beam.
    pub blocks_lowest: Vec<i32>,
    /// Per column, the height where its sun beam starts.
    pub blocks_beams: Vec<i32>,
    pub priority: i32,
    pub depends_on: Vec<IVec3>,
}

impl ChunkGenerationState {
    /// Column tables of the right size, a well formed chunk once blocks are
    /// being generated, and a block counter within the chunk.
    pub open spec fn wf(&self) -> bool {
        &&& self.blocks_lowest@.len() == CHUNK_AREA
        &&& self.blocks_beams@.len() == CHUNK_AREA
        &&& forall|i: int|
            0 <= i < CHUNK_AREA ==> 0 <= #[trigger] self.blocks_lowest@[i] < 32 && 0
                <= self.blocks_beams@[i] < 32
        &&& self.current_block <= CHUNK_VOLUME
        &&& self.chunk matches Some(c) ==> c.wf()
        &&& self.pass != GenerationPass::Blocks ==> self.chunk.is_some()
    }

    /// A fresh request for the chunk at `pos`.
    pub fn new(pos: IVec3, priority: i32) -> (r: Self)
        ensures
            r.wf(),
            r.chunk.is_none(),
            r.pos == pos,
            r.priority == priority,
            r.current_block == 0,
            r.pass == GenerationPass::Blocks,
            forall|i: int| 0 <= i < CHUNK_AREA ==> r.blocks_lowest@[i] == 0 && r.blocks_beams@[i]
                == CHUNK_SIDE - 1,
            r.depends_on@.len() == 0,
    {
        let mut blocks_lowest: Vec<i32> = Vec::with_capacity(CHUNK_AREA);
        let mut blocks_beams: Vec<i32> = Vec::with_capacity(CHUNK_AREA);
        let mut i: usize = 0;
        while i < CHUNK_AREA
            invariant
                i <= CHUNK_AREA,
                blocks_lowest@.len() == i,
                blocks_beams@.len() == i,
                forall|j: int| 0 <= j < i ==> blocks_lowest@[j] == 0 && blocks_beams@[j] == CHUNK_SIDE - 1,
            decreases CHUNK_AREA - i,
        {
            blocks_lowest.push(0);
            blocks_beams.push(CHUNK_SIDE as i32 - 1);
            i = i + 1;
        }
        ChunkGenerationState {
            chunk: None,
            pos,
            current_block: 0,
            pass: GenerationPass::Blocks,
            blocks_lowest,
            blocks_beams,
            priority,
            depends_on: Vec::new(),
        }
    }

    /// The range of block indices to generate next, given how many blocks may
    /// still be generated this tick.
    pub fn blocks_range(&self, budget: usize) -> (r: (usize, usize))
        requires
            self.wf(),
        ensures
            r.0 == self.current_block,
            r.1 == if self.current_block + budget <= CHUNK_VOLUME {
                self.current_block + budget
            } else {
                CHUNK_VOLUME as int
            },
    {
        let bound = if budget <= CHUNK_VOLUME - self.current_block {
            self.current_block + budget
        } else {
            CHUNK_VOLUME
        };
        (self.current_block, bound)
    }

    /// Stores the blocks generated for the indices from `current_block` on
    /// (creating the chunk first if needed); once the last block is stored
    /// the chunk moves on to the sun beam pass.
    pub fn store_generated(&mut self, generated: Vec<Block>)
        requires
            old(self).wf(),
            old(self).current_block + generated@.len() <= CHUNK_VOLUME,
        ensures
            final(self).wf(),
            final(self).current_block == old(self).current_block + generated@.len(),
            final(self).chunk.is_some(),
            forall|i: int|
                0 <= i < generated@.len() ==> final(self).chunk.unwrap().blocks@[old(self).current_block
                    + i] == generated@[i],
            forall|i: int|
                0 <= i < CHUNK_VOLUME && !(old(self).current_block <= i < old(self).current_block
                    + generated@.len()) && old(self).chunk.is_some() ==> final(self).chunk.unwrap().blocks@[i]
                    == old(self).chunk.unwrap().blocks@[i],
            forall|i: int|
                0 <= i < CHUNK_VOLUME && !(old(self).current_block <= i < old(self).current_block
                    + generated@.len()) && old(self).chunk.is_none() ==> final(self).chunk.unwrap().blocks@[i].id == 0,
            final(self).pass == if final(self).current_block == CHUNK_VOLUME {
                GenerationPass::Sunbeams
            } else {
                old(self).pass
            },
            final(self).pos == old(self).pos,
            final(self).priority == old(self).priority,
            final(self).depends_on == old(self).depends_on,
            final(self).blocks_lowest == old(self).blocks_lowest,
            final(self).blocks_beams == old(self).blocks_beams,
    {
        let mut chunk = match self.chunk.take() {
            Some(c) => c,
            None => Chunk::empty(),
        };
        let ghost c0 = chunk;
        let start = self.current_block;
        let mut i: usize = 0;
        while i < generated.len()
            invariant
                i <= generated@.len(),
                start + generated@.len() <= CHUNK_VOLUME,
                chunk.wf(),
                c0.wf(),
                forall|j: int| 0 <= j < i ==> chunk.blocks@[start + j] == generated@[j],
                forall|j: int|
                    0 <= j < CHUNK_VOLUME && !(start <= j < start + i) ==> chunk.blocks@[j] == c0.blocks@[j],
            decreases generated.len() - i,
        {
            chunk.blocks.set(start + i, generated[i]);
            i = i + 1;
        }
        self.chunk = Some(chunk);
        self.current_block = start + generated.len();
        if self.current_block == CHUNK_VOLUME {
            self.pass = GenerationPass::Sunbeams;
        }
    }
}

/// How many blocks may be generated this tick: more while the world is
/// nearly empty.
pub fn max_block_generation(loaded_chunks: usize) -> (r: usize)
    ensures
        r == if loaded_chunks < BLOCK_GENERATION_LOW_THRESHOLD {
            (MAX_BLOCK_GENERATION_PER_FRAME * BLOCK_GENERATION_LOW_MULTIPLIER) as int
        } else {
            MAX_BLOCK_GENERATION_PER_FRAME as int
        },
{
    if loaded_chunks < BLOCK_GENERATION_LOW_THRESHOLD {
        MAX_BLOCK_GENERATION_PER_FRAME * BLOCK_GENERATION_LOW_MULTIPLIER
    } else {
        MAX_BLOCK_GENERATION_PER_FRAME
    }
}

/// The chunks being generated, keyed by their origin.
#[derive(Debug)]
pub struct ChunkGenerationRequest {
    pub requested: HashMap<u128, ChunkGenerationState>,
}

impl ChunkGenerationRequest {
    /// Every state is well formed and stored under the key of its position.
    pub open spec fn wf(&self) -> bool {
        forall|k: u128|
            #[trigger] self.requested@.contains_key(k) ==> self.requested@[k].wf() && pos_key(
                self.requested@[k].pos,
            ) == k
    }

    pub fn new() -> (r: Self)
        ensures
            r.wf(),
            r.requested@ == Map::<u128, ChunkGenerationState>::empty(),
    {
        ChunkGenerationRequest { requested: HashMap::new() }
    }

    /// Requests the chunk at `chunk_pos` with `priority`, keeping the smaller
    /// priority if it was requested already.
    pub fn insert_priority(&mut self, chunk_pos: IVec3, priority: i32)
        requires
            old(self).wf(),
        ensures
            final(self).wf(),
            final(self).requested@.dom() == old(self).requested@.dom().insert(pos_key(chunk_pos)),
            forall|k: u128|
                k != pos_key(chunk_pos) && #[trigger] old(self).requested@.contains_key(k)
                    ==> final(self).requested@[k] == old(self).requested@[k],
            ({
                let k = pos_key(chunk_pos);
                let n = final(self).requested@[k];
                if old(self).requested@.contains_key(k) {
                    let o = old(self).requested@[k];
                    &&& n.priority == if o.priority <= priority {
                        o.priority
                    } else {
                        priority
                    }
                    &&& n == ChunkGenerationState { priority: n.priority, ..o }
                } else {
                    &&& n.priority == priority
                    &&& n.pos == chunk_pos
                    &&& n.pass == GenerationPass::Blocks
                    &&& n.chunk.is_none()
                    &&& n.current_block == 0
                    &&& n.depends_on@.len() == 0
                }
            }),
    {
        let k = chunk_pos.key();
        let fresh = ChunkGenerationState::new(chunk_pos, priority);
        let req = self.requested.entry(k).or_insert(fresh);
        if priority < req.priority {
            req.priority = priority;
        }
        proof {
            assert(self.requested@.dom() =~= old(self).requested@.dom().insert(k));
        }
    }

    /// The keys of the chunks at pass `pass`.
    pub fn keys_for_pass(&self, pass: GenerationPass) -> (r: Vec<u128>)
        ensures
            forall|k: u128|
                #[trigger] r@.contains(k) <==> self.requested@.contains_key(k) && self.requested@[k].pass
                    == pass,
    {
        let keys = crate::terrain::key_list(&self.requested);
        let mut r: Vec<u128> = Vec::new();
        let mut i: usize = 0;
        while i < keys.len()
            invariant
                i <= keys@.len(),
                keys@.to_set() == self.requested@.dom(),
                forall|k: u128|
                    #[trigger] r@.contains(k) <==> keys@.subrange(0, i as int).contains(k)
                        && self.requested@[k].pass == pass,
            decreases keys.len() - i,
        {
            let k = keys[i];
            let ghost r0 = r@;
            proof {
                assert(keys@.to_set().contains(k));
            }
            let st = match self.requested.get(&k) {
                Some(s) => s,
                None => {
                    proof {
                        assert(false);
                    }
                    return r;
                },
            };
            if st.pass == pass {
                r.push(k);
            }
            proof {
                let s1 = keys@.subrange(0, i + 1);
                let s0 = keys@.subrange(0, i as int);
                assert(s1 =~= s0.push(k));
                assert forall|kk: u128|
                    #[trigger] r@.contains(kk) <==> s1.contains(kk) && self.requested@[kk].pass == pass by {
                    if s1.contains(kk) && kk != k {
                        let j = choose|j: int| 0 <= j < s1.len() && s1[j] == kk;
                        assert(s0[j] == kk);
                    }
                    if s0.contains(kk) {
                        let j = choose|j: int| 0 <= j < s0.len() && s0[j] == kk;
                        assert(s1[j] == kk);
                    }
                    if kk == k {
                        assert(s1[i as int] == kk);
                    }
                    if r@.contains(kk) && kk != k {
                        let j = choose|j: int| 0 <= j < r@.len() && r@[j] == kk;
                        if j < r0.len() {
                            assert(r0[j] == kk);
                        }
                    }
                    if r0.contains(kk) {
                        let j = choose|j: int| 0 <= j < r0.len() && r0[j] == kk;
                        assert(r@[j] == kk);
                    }
                    if kk == k && st.pass == pass {
                        assert(r@[r@.len() - 1] == kk);
                    }
                }
            }
            i = i + 1;
        }
        proof {
            assert(keys@.subrange(0, keys@.len() as int) =~= keys@);
            assert forall|k: u128| #[trigger] r@.contains(k) <==> self.requested@.contains_key(k)
                && self.requested@[k].pass == pass by {
                if self.requested@.contains_key(k) {
                    assert(keys@.to_set().contains(k));
                }
            }
        }
        r
    }
}

} // verus!

verus! {

/// Column `x` of the column index `c` (`c == x + z * CHUNK_SIDE`).
pub open spec fn col_x(c: int) -> int {
    c % 32
}

/// Column `z` of the column index `c`.
pub open spec fn col_z(c: int) -> int {
    c / 32
}

/// The block at height `y` of column `c`, relative to the chunk origin.
pub open spec fn col_pos(c: int, y: int) -> IVec3 {
    IVec3 { x: col_x(c) as i32, y: y as i32, z: col_z(c) as i32 }
}

/// Whether the block at height `y` of column `c` is opaque.
pub open spec fn opaque_in(blocks: Seq<Block>, c: int, y: int) -> bool {
    blocks[index_of(col_pos(c, y))].is_opaque()
}

/// Scanning column `c` down from height `y`: just above the first opaque
/// block (at most the top height), or `prev` if there is none.
pub open spec fn lowest_from(blocks: Seq<Block>, c: int, y: int, prev: i32) -> i32
    decreases y + 1,
{
    if y < 0 {
        prev
    } else if opaque_in(blocks, c, y) {
        if y + 1 < 31 {
            (y + 1) as i32
        } else {
            31
        }
    } else {
        lowest_from(blocks, c, y - 1, prev)
    }
}

/// Whether height `y` of a chunk at height `chunk_y` is at or above the sun.
pub open spec fn sunlit(chunk_y: i32, y: int) -> bool {
    chunk_y + y >= crate::sun_beams::sun_height()
}

/// Scanning column `c` up from height `y`: the first height that is sunlit
/// or holds an opaque block above `lowest`, or `prev` if there is none.
pub open spec fn beam_from(blocks: Seq<Block>, chunk_y: i32, c: int, lowest: i32, y: int, prev: i32) -> i32
    decreases 32 - y,
{
    if y >= 32 {
        prev
    } else if sunlit(chunk_y, y) || (opaque_in(blocks, c, y) && y > lowest) {
        y as i32
    } else {
        beam_from(blocks, chunk_y, c, lowest, y + 1, prev)
    }
}

/// The beam of column `c` reaches the top of the chunk without reaching the
/// sun.
pub open spec fn escaped(beams: Seq<i32>, chunk_y: i32, c: int) -> bool {
    beams[c] == 31 && !sunlit(chunk_y, 31)
}

/// Column `c` of the tables `lows` and `beams` holds what scanning the
/// chunk gives, starting from the previous tables.
pub open spec fn column_scanned(
    blocks: Seq<Block>,
    chunk_y: i32,
    lows: Seq<i32>,
    beams: Seq<i32>,
    prev_lows: Seq<i32>,
    prev_beams: Seq<i32>,
    c: int,
) -> bool {
    &&& lows[c] == lowest_from(blocks, c, 31, prev_lows[c])
    &&& beams[c] == beam_from(blocks, chunk_y, c, lows[c], lows[c] as int, prev_beams[c])
    &&& 0 <= lows[c] < 32
    &&& 0 <= beams[c] < 32
}

proof fn lemma_col_in_chunk(c: int, y: int)
    requires
        0 <= c < CHUNK_AREA,
        0 <= y < 32,
    ensures
        in_chunk(col_pos(c, y)),
        0 <= index_of(col_pos(c, y)) < CHUNK_VOLUME,
{
    crate::chunk::lemma_index_of_pos(col_pos(c, y));
}

/// Scans column `c` of the chunk for its lowest sunlit height and the height
/// where its beam starts.
fn scan_column(blocks: &Vec<Block>, chunk_y: i32, c: usize, prev_lowest: i32, prev_beam: i32) -> (r: (i32, i32))
    requires
        blocks@.len() == CHUNK_VOLUME,
        c < CHUNK_AREA,
        0 <= prev_lowest < 32,
        0 <= prev_beam < 32,
    ensures
        r.0 == lowest_from(blocks@, c as int, 31, prev_lowest),
        r.1 == beam_from(blocks@, chunk_y, c as int, r.0, r.0 as int, prev_beam),
        0 <= r.0 < 32,
        0 <= r.1 < 32,
{
    let x = (c % 32) as i32;
    let z = (c / 32) as i32;
    let mut lowest = prev_lowest;
    let mut y: i32 = 31;
    loop
        invariant_except_break
            -1 <= y <= 31,
            lowest == prev_lowest,
            lowest_from(blocks@, c as int, 31, prev_lowest) == lowest_from(blocks@, c as int, y as int, prev_lowest),
        invariant
            blocks@.len() == CHUNK_VOLUME,
            c < CHUNK_AREA,
            x == col_x(c as int),
            z == col_z(c as int),
            0 <= prev_lowest < 32,
        ensures
            lowest == lowest_from(blocks@, c as int, 31, prev_lowest),
        decreases y + 1,
    {
        if y < 0 {
            break;
        }
        proof {
            lemma_col_in_chunk(c as int, y as int);
        }
        if blocks[crate::chunk::xyz2idx(IVec3 { x, y, z })].opaque() {
            lowest = if y + 1 < 31 {
                y + 1
            } else {
                31
            };
            break;
        }
        y = y - 1;
    }
    proof {
        lemma_lowest_range(blocks@, c as int, 31, prev_lowest);
    }
    let mut beam = prev_beam;
    let mut y: i32 = lowest;
    loop
        invariant_except_break
            lowest <= y <= 32,
            beam == prev_beam,
            beam_from(blocks@, chunk_y, c as int, lowest, lowest as int, prev_beam) == beam_from(
                blocks@,
                chunk_y,
                c as int,
                lowest,
                y as int,
                prev_beam,
            ),
        invariant
            blocks@.len() == CHUNK_VOLUME,
            c < CHUNK_AREA,
            x == col_x(c as int),
            z == col_z(c as int),
            0 <= lowest < 32,
            0 <= prev_beam < 32,
        ensures
            beam == beam_from(blocks@, chunk_y, c as int, lowest, lowest as int, prev_beam),
            0 <= beam < 32,
        decreases 32 - y,
    {
        if y >= 32 {
            break;
        }
        proof {
            lemma_col_in_chunk(c as int, y as int);
        }
        let is_opaque = blocks[crate::chunk::xyz2idx(IVec3 { x, y, z })].opaque() && y > lowest;
        let is_sun = chunk_y as i64 + y as i64 >= crate::sun_beams::get_sun_heightfield(IVec2 { x, y: z }) as i64;
        if is_sun || is_opaque {
            beam = y;
            break;
        }
        y = y + 1;
    }
    (lowest, beam)
}

proof fn lemma_lowest_range(blocks: Seq<Block>, c: int, y: int, prev: i32)
    requires
        0 <= prev < 32,
        y <= 31,
    ensures
        0 <= lowest_from(blocks, c, y, prev) < 32,
    decreases y + 1,
{
    if y >= 0 && !opaque_in(blocks, c, y) {
        lemma_lowest_range(blocks, c, y - 1, prev);
    }
}

impl ChunkGenerationState {
    /// Computes, for every column of the chunk, the lowest height of its sun
    /// beam and the height where the beam starts, and tells whether some beam
    /// escapes through the top of the chunk without reaching the sun.
    pub fn compute_sun_columns(&mut self, chunk_pos: IVec3) -> (r: bool)
        requires
            old(self).wf(),
            old(self).chunk.is_some(),
        ensures
            final(self).wf(),
            final(self).chunk == old(self).chunk,
            final(self).pos == old(self).pos,
            final(self).pass == old(self).pass,
            final(self).current_block == old(self).current_block,
            final(self).priority == old(self).priority,
            final(self).depends_on == old(self).depends_on,
            forall|c: int|
                0 <= c < CHUNK_AREA ==> #[trigger] column_scanned(
                    old(self).chunk.unwrap().blocks@,
                    chunk_pos.y,
                    final(self).blocks_lowest@,
                    final(self).blocks_beams@,
                    old(self).blocks_lowest@,
                    old(self).blocks_beams@,
                    c,
                ),
            r == exists|c: int|
                0 <= c < CHUNK_AREA && #[trigger] escaped(final(self).blocks_beams@, chunk_pos.y, c),
    {
        let ghost s0 = *self;
        let chunk = match &self.chunk {
            Some(c) => c,
            None => {
                proof {
                    assert(false);
                }
                return false;
            },
        };
        let ghost blocks = chunk.blocks@;
        proof {
            assert(blocks == s0.chunk.unwrap().blocks@);
        }
        let mut lowest_t: Vec<i32> = Vec::with_capacity(CHUNK_AREA);
        let mut beams_t: Vec<i32> = Vec::with_capacity(CHUNK_AREA);
        let mut any_beam_escaped = false;
        let mut c: usize = 0;
        while c < CHUNK_AREA
            invariant
                c <= CHUNK_AREA,
                s0.wf(),
                self.blocks_lowest@ == s0.blocks_lowest@,
                self.blocks_beams@ == s0.blocks_beams@,
                blocks == chunk.blocks@,
                blocks.len() == CHUNK_VOLUME,
                lowest_t@.len() == c,
                beams_t@.len() == c,
                forall|j: int|
                    0 <= j < c ==> #[trigger] column_scanned(
                        blocks,
                        chunk_pos.y,
                        lowest_t@,
                        beams_t@,
                        s0.blocks_lowest@,
                        s0.blocks_beams@,
                        j,
                    ),
                any_beam_escaped == exists|j: int| 0 <= j < c && #[trigger] escaped(beams_t@, chunk_pos.y, j),
            decreases CHUNK_AREA - c,
        {
            let (lowest, beam) = scan_column(
                &chunk.blocks,
                chunk_pos.y,
                c,
                self.blocks_lowest[c],
                self.blocks_beams[c],
            );
            let ghost lt0 = lowest_t@;
            let ghost bt0 = beams_t@;
            lowest_t.push(lowest);
            beams_t.push(beam);
            let top_sunlit = chunk_pos.y as i64 + 31 >= crate::sun_beams::get_sun_heightfield(
                IVec2 { x: (c % 32) as i32, y: (c / 32) as i32 },
            ) as i64;
            let ghost was = any_beam_escaped;
            if beam == CHUNK_SIDE as i32 - 1 && !top_sunlit {
                any_beam_escaped = true;
            }
            proof {
                assert forall|j: int| 0 <= j < c implies #[trigger] escaped(beams_t@, chunk_pos.y, j)
                    == escaped(bt0, chunk_pos.y, j) by {
                    assert(beams_t@[j] == bt0[j]);
                }
                assert forall|j: int|
                    0 <= j < c + 1 implies #[trigger] column_scanned(
                        blocks,
                        chunk_pos.y,
                        lowest_t@,
                        beams_t@,
                        s0.blocks_lowest@,
                        s0.blocks_beams@,
                        j,
                    ) by {
                    if j < c {
                        assert(lowest_t@[j] == lt0[j]);
                        assert(beams_t@[j] == bt0[j]);
                        assert(column_scanned(blocks, chunk_pos.y, lt0, bt0, s0.blocks_lowest@, s0.blocks_beams@, j));
                    }
                }
                assert(escaped(beams_t@, chunk_pos.y, c as int) == (beam == 31 && !top_sunlit));
                if was {
                    let j = choose|j: int| 0 <= j < c && #[trigger] escaped(bt0, chunk_pos.y, j);
                    assert(escaped(beams_t@, chunk_pos.y, j));
                }
                if any_beam_escaped && !was {
                    assert(escaped(beams_t@, chunk_pos.y, c as int));
                }
                if exists|j: int| 0 <= j < c + 1 && #[trigger] escaped(beams_t@, chunk_pos.y, j) {
                    let j = choose|j: int| 0 <= j < c + 1 && #[trigger] escaped(beams_t@, chunk_pos.y, j);
                    if j < c {
                        assert(escaped(bt0, chunk_pos.y, j));
                    }
                }
            }
            c = c + 1;
        }
        self.blocks_lowest = lowest_t;
        self.blocks_beams = beams_t;
        proof {
            assert forall|i: int|
                0 <= i < CHUNK_AREA implies 0 <= #[trigger] self.blocks_lowest@[i] < 32 && 0
                    <= self.blocks_beams@[i] < 32 by {
                assert(column_scanned(blocks, chunk_pos.y, self.blocks_lowest@, self.blocks_beams@, s0.blocks_lowest@, s0.blocks_beams@, i));
            }
        }
        any_beam_escaped
    }
}

} // verus!

verus! {

/// The world column of column `c` of the chunk at `chunk_pos`.
pub open spec fn column_world(chunk_pos: IVec3, c: int) -> IVec2 {
    IVec2 { x: (col_x(c) + chunk_pos.x) as i32, y: (col_z(c) + chunk_pos.z) as i32 }
}

/// The sunlight entering column `c` from above: full where the beam starts
/// at the sun, the sunlight of the block above the chunk where the beam
/// escapes through the top, none otherwise.
pub open spec fn column_sun_light(beams: Seq<i32>, chunk_pos: IVec3, u: Universe, c: int) -> int {
    if chunk_pos.y + beams[c] == crate::sun_beams::sun_height() {
        15
    } else if beams[c] == 31 {
        match u.block_at(
            IVec3 {
                x: (chunk_pos.x + col_x(c)) as i32,
                y: (chunk_pos.y + 32) as i32,
                z: (chunk_pos.z + col_z(c)) as i32,
            },
        ) {
            Some(b) => b.light_of(LightType::Sun) as int,
            None => 0,
        }
    } else {
        0
    }
}

/// The beam this chunk adds to column `c`, in world heights.
pub open spec fn column_new_beam(lows: Seq<i32>, beams: Seq<i32>, chunk_pos: IVec3, c: int) -> crate::sun_beams::SunBeam {
    crate::sun_beams::SunBeam {
        bottom: (lows[c] + chunk_pos.y) as i32,
        top: ((if beams[c] < 31 {
            beams[c] as int
        } else {
            31
        }) + chunk_pos.y) as i32,
    }
}

/// Two beams touch or overlap.
pub open spec fn beams_adjacent(b: crate::sun_beams::SunBeam, n: crate::sun_beams::SunBeam) -> bool {
    b.top + 1 >= n.bottom && n.top >= b.bottom - 1
}

/// Every column that receives full sunlight has a beam this chunk's beam
/// can extend.
pub open spec fn extension_ok(
    st: ChunkGenerationState,
    chunk_pos: IVec3,
    u: Universe,
    sb: crate::sun_beams::SunBeams,
) -> bool {
    forall|c: int|
        0 <= c < CHUNK_AREA && #[trigger] column_sun_light(st.blocks_beams@, chunk_pos, u, c) == 15
            ==> beams_adjacent(
            sb.beam_at(column_world(chunk_pos, c)),
            column_new_beam(st.blocks_lowest@, st.blocks_beams@, chunk_pos, c),
        )
}

/// `sb1` is `sb0` with the beam of every column of the chunk that receives
/// full sunlight extended by the beam the chunk adds to it.
pub open spec fn extended_by(
    sb0: crate::sun_beams::SunBeams,
    sb1: crate::sun_beams::SunBeams,
    st: ChunkGenerationState,
    chunk_pos: IVec3,
    u: Universe,
) -> bool {
    &&& forall|xz: IVec2|
        (forall|c: int| 0 <= c < CHUNK_AREA ==> xz != #[trigger] column_world(chunk_pos, c))
            ==> #[trigger] sb1.beam_at(xz) == sb0.beam_at(xz)
    &&& forall|c: int|
        0 <= c < CHUNK_AREA ==> {
            let b = sb0.beam_at(column_world(chunk_pos, c));
            let n = column_new_beam(st.blocks_lowest@, st.blocks_beams@, chunk_pos, c);
            #[trigger] sb1.beam_at(column_world(chunk_pos, c)) == if column_sun_light(
                st.blocks_beams@,
                chunk_pos,
                u,
                c,
            ) == 15 {
                crate::sun_beams::SunBeam {
                    bottom: if b.bottom <= n.bottom {
                        b.bottom
                    } else {
                        n.bottom
                    },
                    top: if b.top >= n.top {
                        b.top
                    } else {
                        n.top
                    },
                }
            } else {
                b
            }
        }
}

/// Every beam of `b` holds the heights of the beam of `a` in its column.
pub open spec fn beams_grown(a: crate::sun_beams::SunBeams, b: crate::sun_beams::SunBeams) -> bool {
    forall|xz: IVec2|
        #[trigger] b.beam_at(xz).bottom <= a.beam_at(xz).bottom && b.beam_at(xz).top >= a.beam_at(xz).top
}

proof fn lemma_extended_grows(
    sb0: crate::sun_beams::SunBeams,
    sb1: crate::sun_beams::SunBeams,
    st: ChunkGenerationState,
    chunk_pos: IVec3,
    u: Universe,
)
    requires
        extended_by(sb0, sb1, st, chunk_pos, u),
    ensures
        beams_grown(sb0, sb1),
{
    assert forall|xz: IVec2|
        #[trigger] sb1.beam_at(xz).bottom <= sb0.beam_at(xz).bottom && sb1.beam_at(xz).top >= sb0.beam_at(
            xz,
        ).top by {
        if exists|c: int| 0 <= c < CHUNK_AREA && xz == #[trigger] column_world(chunk_pos, c) {
            let c = choose|c: int| 0 <= c < CHUNK_AREA && xz == #[trigger] column_world(chunk_pos, c);
            assert(sb1.beam_at(column_world(chunk_pos, c)) == sb1.beam_at(xz));
        }
    }
}

proof fn lemma_grown_trans(a: crate::sun_beams::SunBeams, b: crate::sun_beams::SunBeams, c: crate::sun_beams::SunBeams)
    requires
        beams_grown(a, b),
        beams_grown(b, c),
    ensures
        beams_grown(a, c),
{
    assert forall|xz: IVec2|
        #[trigger] c.beam_at(xz).bottom <= a.beam_at(xz).bottom && c.beam_at(xz).top >= a.beam_at(xz).top by {
        assert(b.beam_at(xz).bottom <= a.beam_at(xz).bottom);
        assert(c.beam_at(xz).bottom <= b.beam_at(xz).bottom);
    }
}

proof fn lemma_column_world_injective(chunk_pos: IVec3, c1: int, c2: int)
    requires
        0 <= c1 < CHUNK_AREA,
        0 <= c2 < CHUNK_AREA,
        crate::terrain::pos_safe(chunk_pos),
        column_world(chunk_pos, c1) == column_world(chunk_pos, c2),
    ensures
        c1 == c2,
{
    assert(c1 == col_x(c1) + 32 * col_z(c1));
    assert(c2 == col_x(c2) + 32 * col_z(c2));
}

impl ChunkGenerationState {
    /// The sunlight entering column `c` from above (see [`column_sun_light`]).
    pub fn column_sun_light(&self, chunk_pos: IVec3, universe: &Universe, c: usize) -> (r: u8)
        requires
            self.wf(),
            universe.wf(),
            c < CHUNK_AREA,
            crate::terrain::pos_safe(chunk_pos),
        ensures
            r == column_sun_light(self.blocks_beams@, chunk_pos, *universe, c as int),
    {
        let x = (c % 32) as i32;
        let z = (c / 32) as i32;
        proof {
            assert(0 <= self.blocks_lowest@[c as int] < 32 && 0 <= self.blocks_beams@[c as int] < 32);
        }
        let beam = self.blocks_beams[c];
        let beam_pos = IVec2 { x: x + chunk_pos.x, y: z + chunk_pos.z };
        if chunk_pos.y + beam == crate::sun_beams::get_sun_heightfield(beam_pos) {
            MAX_LIGHT
        } else if beam == CHUNK_SIDE as i32 - 1 {
            let above = IVec3 { x: chunk_pos.x + x, y: chunk_pos.y + CHUNK_SIDE as i32, z: chunk_pos.z + z };
            match universe.read_chunk(&above) {
                Some(block) => block.get_light(LightType::Sun),
                None => 0,
            }
        } else {
            0
        }
    }

    /// Whether [`ChunkGenerationState::extend_column_beams`] may run: every
    /// column receiving full sunlight has a beam its new beam can extend.
    pub fn extension_ok(&self, chunk_pos: IVec3, universe: &Universe, sun_beams: &crate::sun_beams::SunBeams) -> (r: bool)
        requires
            self.wf(),
            universe.wf(),
            crate::terrain::pos_safe(chunk_pos),
            crate::terrain::beams_safe(*sun_beams),
        ensures
            r == extension_ok(*self, chunk_pos, *universe, *sun_beams),
    {
        let mut c: usize = 0;
        while c < CHUNK_AREA
            invariant
                c <= CHUNK_AREA,
                self.wf(),
                universe.wf(),
                crate::terrain::pos_safe(chunk_pos),
                crate::terrain::beams_safe(*sun_beams),
                forall|j: int|
                    0 <= j < c && #[trigger] column_sun_light(self.blocks_beams@, chunk_pos, *universe, j) == 15
                        ==> beams_adjacent(
                        sun_beams.beam_at(column_world(chunk_pos, j)),
                        column_new_beam(self.blocks_lowest@, self.blocks_beams@, chunk_pos, j),
                    ),
            decreases CHUNK_AREA - c,
        {
            if self.column_sun_light(chunk_pos, universe, c) == MAX_LIGHT {
                let x = (c % 32) as i32;
                let z = (c / 32) as i32;
                let beam_pos = IVec2 { x: x + chunk_pos.x, y: z + chunk_pos.z };
                let b = sun_beams.get_at(&beam_pos);
                proof {
                    assert(crate::terrain::beam_coord_safe(b.bottom as int) && crate::terrain::beam_coord_safe(b.top as int)) by {
                        if sun_beams.beams@.contains_key(crate::ivec::plane_key(beam_pos)) {
                        }
                    }
                }
                proof {
                    assert(0 <= self.blocks_lowest@[c as int] < 32 && 0 <= self.blocks_beams@[c as int] < 32);
                }
                let low = self.blocks_lowest[c] + chunk_pos.y;
                let beam = self.blocks_beams[c];
                let top = (if beam < CHUNK_SIDE as i32 - 1 {
                    beam
                } else {
                    CHUNK_SIDE as i32 - 1
                }) + chunk_pos.y;
                if !(b.top as i64 + 1 >= low as i64 && top as i64 >= b.bottom as i64 - 1) {
                    return false;
                }
            }
            c = c + 1;
        }
        true
    }

    /// Extends the sun beam of every column that receives full sunlight with
    /// the beam this chunk adds to it; the chunk then moves on to the biome
    /// pass.
    pub fn extend_column_beams(&mut self, chunk_pos: IVec3, universe: &Universe, sun_beams: &mut crate::sun_beams::SunBeams)
        requires
            old(self).wf(),
            old(self).chunk.is_some(),
            universe.wf(),
            crate::terrain::pos_safe(chunk_pos),
            crate::terrain::beams_safe(*old(sun_beams)),
            extension_ok(*old(self), chunk_pos, *universe, *old(sun_beams)),
        ensures
            final(self).wf(),
            final(self).pass == GenerationPass::Biome,
            final(self).chunk == old(self).chunk,
            final(self).blocks_lowest == old(self).blocks_lowest,
            final(self).blocks_beams == old(self).blocks_beams,
            final(self).depends_on == old(self).depends_on,
            final(self).pos == old(self).pos,
            final(self).priority == old(self).priority,
            final(self).current_block == old(self).current_block,
            crate::terrain::beams_safe(*final(sun_beams)),
            extended_by(*old(sun_beams), *final(sun_beams), *old(self), chunk_pos, *universe),
    {
        let ghost sb0 = *sun_beams;
        let mut c: usize = 0;
        while c < CHUNK_AREA
            invariant
                c <= CHUNK_AREA,
                self.wf(),
                *self == *old(self),
                universe.wf(),
                crate::terrain::pos_safe(chunk_pos),
                crate::terrain::beams_safe(*sun_beams),
                extension_ok(*self, chunk_pos, *universe, sb0),
                forall|xz: IVec2|
                    (forall|j: int| 0 <= j < c ==> xz != #[trigger] column_world(chunk_pos, j))
                        ==> #[trigger] sun_beams.beam_at(xz) == sb0.beam_at(xz),
                forall|j: int|
                    0 <= j < c ==> {
                        let b = sb0.beam_at(column_world(chunk_pos, j));
                        let n = column_new_beam(self.blocks_lowest@, self.blocks_beams@, chunk_pos, j);
                        #[trigger] sun_beams.beam_at(column_world(chunk_pos, j)) == if column_sun_light(
                            self.blocks_beams@,
                            chunk_pos,
                            *universe,
                            j,
                        ) == 15 {
                            crate::sun_beams::SunBeam {
                                bottom: if b.bottom <= n.bottom {
                                    b.bottom
                                } else {
                                    n.bottom
                                },
                                top: if b.top >= n.top {
                                    b.top
                                } else {
                                    n.top
                                },
                            }
                        } else {
                            b
                        }
                    },
            decreases CHUNK_AREA - c,
        {
            let light = self.column_sun_light(chunk_pos, universe, c);
            let x = (c % 32) as i32;
            let z = (c / 32) as i32;
            let beam_pos = IVec2 { x: x + chunk_pos.x, y: z + chunk_pos.z };
            let ghost before = *sun_beams;
            proof {
                assert(beam_pos == column_world(chunk_pos, c as int));
                assert forall|j: int| 0 <= j < c implies column_world(chunk_pos, j) != beam_pos by {
                    if column_world(chunk_pos, j) == beam_pos {
                        lemma_column_world_injective(chunk_pos, j, c as int);
                    }
                }
                assert(sun_beams.beam_at(beam_pos) == sb0.beam_at(beam_pos));
            }
            if light == MAX_LIGHT {
                proof {
                    assert(0 <= self.blocks_lowest@[c as int] < 32 && 0 <= self.blocks_beams@[c as int] < 32);
                }
                let low = self.blocks_lowest[c] + chunk_pos.y;
                let beam = self.blocks_beams[c];
                let top = (if beam < CHUNK_SIDE as i32 - 1 {
                    beam
                } else {
                    CHUNK_SIDE as i32 - 1
                }) + chunk_pos.y;
                let new_beam = crate::sun_beams::SunBeam::new(low, top);
                proof {
                    let b = sun_beams.beam_at(beam_pos);
                    assert(crate::terrain::beam_coord_safe(b.bottom as int) && crate::terrain::beam_coord_safe(b.top as int)) by {
                        if sun_beams.beams@.contains_key(crate::ivec::plane_key(beam_pos)) {
                        }
                    }
                    assert(new_beam == column_new_beam(self.blocks_lowest@, self.blocks_beams@, chunk_pos, c as int));
                }
                sun_beams.extend_beam(&beam_pos, new_beam);
                proof {
                    assert forall|k: u64| #[trigger] sun_beams.beams@.contains_key(k) implies crate::terrain::beam_coord_safe(
                        sun_beams.beams@[k].bottom as int,
                    ) && crate::terrain::beam_coord_safe(sun_beams.beams@[k].top as int) by {
                        if k != crate::ivec::plane_key(beam_pos) {
                            assert(before.beams@.contains_key(k));
                        } else {
                            assert(sun_beams.beams@[k] == sun_beams.beam_at(beam_pos));
                        }
                    }
                }
            }
            proof {
                assert forall|j: int|
                    0 <= j < c + 1 implies {
                        let b = sb0.beam_at(column_world(chunk_pos, j));
                        let n = column_new_beam(self.blocks_lowest@, self.blocks_beams@, chunk_pos, j);
                        #[trigger] sun_beams.beam_at(column_world(chunk_pos, j)) == if column_sun_light(
                            self.blocks_beams@,
                            chunk_pos,
                            *universe,
                            j,
                        ) == 15 {
                            crate::sun_beams::SunBeam {
                                bottom: if b.bottom <= n.bottom {
                                    b.bottom
                                } else {
                                    n.bottom
                                },
                                top: if b.top >= n.top {
                                    b.top
                                } else {
                                    n.top
                                },
                            }
                        } else {
                            b
                        }
                    } by {
                    if j < c {
                        assert(column_world(chunk_pos, j) != beam_pos);
                        assert(sun_beams.beam_at(column_world(chunk_pos, j)) == before.beam_at(column_world(chunk_pos, j)));
                    }
                }
                assert forall|xz: IVec2|
                    (forall|j: int| 0 <= j < c + 1 ==> xz != #[trigger] column_world(chunk_pos, j))
                        implies #[trigger] sun_beams.beam_at(xz) == sb0.beam_at(xz) by {
                    assert(xz != column_world(chunk_pos, c as int));
                    assert forall|j: int| 0 <= j < c implies xz != #[trigger] column_world(chunk_pos, j) by {
                        assert(0 <= j < c + 1);
                    }
                }
            }
            c = c + 1;
        }
        self.pass = GenerationPass::Biome;
    }
}

} // verus!

verus! {

/// The origin of the chunk above the chunk at `p`.
pub open spec fn above_of(p: IVec3) -> IVec3 {
    IVec3 { x: p.x, y: (p.y + 32) as i32, z: p.z }
}

/// `s` without the elements equal to `x`, in order.
pub open spec fn without(s: Seq<IVec3>, x: IVec3) -> Seq<IVec3> {
    s.filter(|p: IVec3| p != x)
}

impl ChunkGenerationState {
    /// When some beam escapes through the top and the chunk above is not
    /// loaded, the chunk waits for it: it depends on it, moves to the waiting
    /// pass, and the origin of the chunk above is returned, to be requested.
    pub fn wait_for_above_if_needed(&mut self, chunk_pos: IVec3, any_beam_escaped: bool, universe: &Universe) -> (r: Option<IVec3>)
        requires
            old(self).wf(),
            old(self).chunk.is_some(),
            crate::terrain::pos_safe(chunk_pos),
        ensures
            final(self).wf(),
            any_beam_escaped && universe.chunk_at(above_of(chunk_pos)).is_none() ==> r == Some(above_of(chunk_pos))
                && final(self).depends_on@ == old(self).depends_on@.push(above_of(chunk_pos))
                && final(self).pass == GenerationPass::WaitingForSunbeams
                && final(self).chunk == old(self).chunk
                && final(self).blocks_lowest == old(self).blocks_lowest
                && final(self).blocks_beams == old(self).blocks_beams
                && final(self).pos == old(self).pos
                && final(self).priority == old(self).priority
                && final(self).current_block == old(self).current_block,
            !(any_beam_escaped && universe.chunk_at(above_of(chunk_pos)).is_none()) ==> r.is_none()
                && *final(self) == *old(self),
    {
        let above = IVec3 { x: chunk_pos.x, y: chunk_pos.y + CHUNK_SIDE as i32, z: chunk_pos.z };
        if any_beam_escaped && !universe.contains_chunk(&above) {
            self.depends_on.push(above);
            self.pass = GenerationPass::WaitingForSunbeams;
            Some(above)
        } else {
            None
        }
    }

    /// A chunk waiting for the chunk above goes back to the lighting pass
    /// once that chunk is loaded, and no longer depends on it.
    pub fn resume_if_above_loaded(&mut self, chunk_pos: IVec3, universe: &Universe) -> (r: bool)
        requires
            old(self).wf(),
            crate::terrain::pos_safe(chunk_pos),
            old(self).chunk.is_some(),
        ensures
            final(self).wf(),
            r == universe.chunk_at(above_of(chunk_pos)).is_some(),
            r ==> final(self).depends_on@ == without(old(self).depends_on@, above_of(chunk_pos))
                && final(self).pass == GenerationPass::Lighting
                && *final(self) == (ChunkGenerationState {
                    pass: final(self).pass,
                    depends_on: final(self).depends_on,
                    ..*old(self)
                }),
            !r ==> *final(self) == *old(self),
    {
        let above = IVec3 { x: chunk_pos.x, y: chunk_pos.y + CHUNK_SIDE as i32, z: chunk_pos.z };
        if universe.contains_chunk(&above) {
            let mut kept: Vec<IVec3> = Vec::new();
            let mut i: usize = 0;
            while i < self.depends_on.len()
                invariant
                    i <= self.depends_on@.len(),
                    kept@ == without(self.depends_on@.subrange(0, i as int), above),
                decreases self.depends_on.len() - i,
            {
                let p = self.depends_on[i];
                proof {
                    let s0 = self.depends_on@.subrange(0, i as int);
                    assert(self.depends_on@.subrange(0, i + 1) =~= s0.push(p));
                    assert(s0.push(p).drop_last() =~= s0);
                    reveal(Seq::filter);
                }
                if p != above {
                    kept.push(p);
                }
                i = i + 1;
            }
            proof {
                assert(self.depends_on@.subrange(0, self.depends_on@.len() as int) =~= self.depends_on@);
            }
            self.depends_on = kept;
            self.pass = GenerationPass::Lighting;
            true
        } else {
            false
        }
    }
}

impl ChunkGenerationRequest {
    /// Adds the generated chunks to the universe and forgets their requests;
    /// returns their origins.
    #[verifier::spinoff_prover]
    pub fn collect_done(&mut self, universe: &mut Universe) -> (r: Vec<IVec3>)
        requires
            old(self).wf(),
            old(universe).wf(),
        ensures
            final(self).wf(),
            final(universe).wf(),
            forall|k: u128|
                #[trigger] final(self).requested@.contains_key(k) <==> old(self).requested@.contains_key(k)
                    && old(self).requested@[k].pass != GenerationPass::Done,
            forall|k: u128|
                #[trigger] final(self).requested@.contains_key(k) ==> final(self).requested@[k] == old(
                    self,
                ).requested@[k],
            forall|k: u128|
                old(self).requested@.contains_key(k) && old(self).requested@[k].pass == GenerationPass::Done
                    ==> #[trigger] final(universe).chunk_at_key(k) == old(self).requested@[k].chunk,
            forall|k: u128|
                !(old(self).requested@.contains_key(k) && old(self).requested@[k].pass == GenerationPass::Done)
                    ==> #[trigger] final(universe).chunks@.contains_key(k) == old(universe).chunks@.contains_key(k)
                    && (final(universe).chunks@.contains_key(k) ==> final(universe).chunks@[k] == old(
                    universe,
                ).chunks@[k]),
            forall|i: int|
                0 <= i < r@.len() ==> old(self).requested@.contains_key(pos_key(#[trigger] r@[i]))
                    && old(self).requested@[pos_key(r@[i])].pass == GenerationPass::Done,
    {
        let keys = self.keys_for_pass(GenerationPass::Done);
        let ghost r0 = self.requested@;
        let ghost u0 = universe.chunks@;
        let ghost mut processed: Set<u128> = Set::empty();
        let mut done: Vec<IVec3> = Vec::new();
        let mut i: usize = 0;
        while i < keys.len()
            invariant
                i <= keys@.len(),
                forall|k: u128|
                    #[trigger] keys@.contains(k) <==> r0.contains_key(k) && r0[k].pass == GenerationPass::Done,
                forall|k: u128| #[trigger] r0.contains_key(k) ==> r0[k].wf() && pos_key(r0[k].pos) == k,
                forall|k: u128| #[trigger] processed.contains(k) ==> keys@.contains(k),
                forall|j: int| 0 <= j < i ==> processed.contains(#[trigger] keys@[j]),
                self.wf(),
                universe.wf(),
                forall|k: u128|
                    #[trigger] self.requested@.contains_key(k) <==> r0.contains_key(k) && !processed.contains(k),
                forall|k: u128| #[trigger] self.requested@.contains_key(k) ==> self.requested@[k] == r0[k],
                forall|k: u128|
                    processed.contains(k) ==> #[trigger] universe.chunks@.contains_key(k)
                        && universe.chunks@[k] == r0[k].chunk.unwrap(),
                forall|k: u128|
                    !processed.contains(k) ==> #[trigger] universe.chunks@.contains_key(k)
                        == u0.contains_key(k) && (universe.chunks@.contains_key(k)
                        ==> universe.chunks@[k] == u0[k]),
                forall|j: int|
                    0 <= j < done@.len() ==> r0.contains_key(pos_key(#[trigger] done@[j])) && r0[pos_key(
                        done@[j],
                    )].pass == GenerationPass::Done,
            decreases keys.len() - i,
        {
            let k = keys[i];
            proof {
                assert(keys@.contains(k)) by {
                    assert(keys@[i as int] == k);
                }
            }
            match self.requested.remove(&k) {
                Some(state) => {
                    let pos = state.pos;
                    match state.chunk {
                        Some(chunk) => {
                            universe.insert_chunk(pos, chunk);
                            done.push(pos);
                        },
                        None => {
                            proof {
                                assert(false);
                            }
                        },
                    }
                },
                None => {},
            }
            proof {
                let p0 = processed;
                processed = processed.insert(k);
                assert forall|kk: u128|
                    processed.contains(kk) implies #[trigger] universe.chunks@.contains_key(kk)
                        && universe.chunks@[kk] == r0[kk].chunk.unwrap() by {
                    if kk != k {
                        assert(p0.contains(kk));
                    }
                }
            }
            i = i + 1;
        }
        proof {
            assert forall|k: u128|
                #[trigger] r0.contains_key(k) && r0[k].pass == GenerationPass::Done implies processed.contains(k) by {
                assert(keys@.contains(k));
                let j = choose|j: int| 0 <= j < keys@.len() && keys@[j] == k;
                assert(processed.contains(keys@[j]));
            }
            assert forall|k: u128|
                r0.contains_key(k) && r0[k].pass == GenerationPass::Done implies #[trigger] universe.chunk_at_key(k)
                    == r0[k].chunk by {
                assert(processed.contains(k));
                assert(universe.chunks@.contains_key(k));
                assert(r0[k].wf());
            }
        }
        done
    }
}

} // verus!

verus! {

/// Burying column `c` from height `y0 - h` down: each of the heights
/// `y0 - h .. y0 - 2` that holds an opaque block becomes grass (height `y0`)
/// or dirt (below); a height under the chunk is skipped, and the first
/// non-opaque block ends it.
pub open spec fn bury(blocks: Seq<Block>, c: int, y0: int, h: int, grass: Block, dirt: Block) -> Seq<Block>
    decreases 3 - h,
{
    if h < 0 || h >= 3 {
        blocks
    } else if !(0 <= y0 - h < 32) {
        bury(blocks, c, y0, h + 1, grass, dirt)
    } else if !blocks[index_of(col_pos(c, y0 - h))].is_opaque() {
        blocks
    } else {
        bury(
            blocks.update(index_of(col_pos(c, y0 - h)), if h == 0 { grass } else { dirt }),
            c,
            y0,
            h + 1,
            grass,
            dirt,
        )
    }
}

/// The height, relative to the chunk, of the block just under the beam of
/// column `c`.
pub open spec fn under_beam(sb: crate::sun_beams::SunBeams, chunk_pos: IVec3, c: int) -> int {
    sb.beam_at(column_world(chunk_pos, c)).bottom - 1 - chunk_pos.y
}

/// The blocks once the first `n` columns are buried under their beams,
/// where the bottom of the beam lies inside the chunk.
pub open spec fn biome_upto(
    blocks: Seq<Block>,
    sb: crate::sun_beams::SunBeams,
    chunk_pos: IVec3,
    grass: Block,
    dirt: Block,
    n: int,
) -> Seq<Block>
    decreases n,
{
    if n <= 0 {
        blocks
    } else {
        let prev = biome_upto(blocks, sb, chunk_pos, grass, dirt, n - 1);
        let y0 = under_beam(sb, chunk_pos, n - 1);
        if 0 <= y0 < 32 {
            bury(prev, n - 1, y0, 0, grass, dirt)
        } else {
            prev
        }
    }
}

proof fn lemma_bury_len(blocks: Seq<Block>, c: int, y0: int, h: int, grass: Block, dirt: Block)
    requires
        blocks.len() == CHUNK_VOLUME,
        0 <= c < CHUNK_AREA,
    ensures
        bury(blocks, c, y0, h, grass, dirt).len() == CHUNK_VOLUME,
    decreases 3 - h,
{
    if h < 0 || h >= 3 {
    } else if !(0 <= y0 - h < 32) {
        lemma_bury_len(blocks, c, y0, h + 1, grass, dirt);
    } else if !blocks[index_of(col_pos(c, y0 - h))].is_opaque() {
    } else {
        lemma_col_in_chunk(c, y0 - h);
        lemma_bury_len(
            blocks.update(index_of(col_pos(c, y0 - h)), if h == 0 { grass } else { dirt }),
            c,
            y0,
            h + 1,
            grass,
            dirt,
        );
    }
}

proof fn lemma_bury_ids(blocks: Seq<Block>, c: int, y0: int, h: int, grass: Block, dirt: Block, bp: Blueprints)
    requires
        blocks.len() == CHUNK_VOLUME,
        0 <= c < CHUNK_AREA,
        chunk_ids_known(blocks, bp),
        (grass.id as int) < bp.blocks@.len(),
        (dirt.id as int) < bp.blocks@.len(),
    ensures
        chunk_ids_known(bury(blocks, c, y0, h, grass, dirt), bp),
    decreases 3 - h,
{
    if h < 0 || h >= 3 {
    } else if !(0 <= y0 - h < 32) {
        lemma_bury_ids(blocks, c, y0, h + 1, grass, dirt, bp);
    } else if !blocks[index_of(col_pos(c, y0 - h))].is_opaque() {
    } else {
        lemma_col_in_chunk(c, y0 - h);
        let nb = blocks.update(index_of(col_pos(c, y0 - h)), if h == 0 { grass } else { dirt });
        assert(chunk_ids_known(nb, bp)) by {
            assert forall|i: int| 0 <= i < nb.len() implies (#[trigger] nb[i].id as int) < bp.blocks@.len() by {
                if i != index_of(col_pos(c, y0 - h)) {
                    assert(nb[i] == blocks[i]);
                }
            }
        }
        lemma_bury_ids(nb, c, y0, h + 1, grass, dirt, bp);
    }
}

proof fn lemma_biome_ids(
    blocks: Seq<Block>,
    sb: crate::sun_beams::SunBeams,
    chunk_pos: IVec3,
    grass: Block,
    dirt: Block,
    n: int,
    bp: Blueprints,
)
    requires
        blocks.len() == CHUNK_VOLUME,
        0 <= n <= CHUNK_AREA,
        chunk_ids_known(blocks, bp),
        (grass.id as int) < bp.blocks@.len(),
        (dirt.id as int) < bp.blocks@.len(),
    ensures
        biome_upto(blocks, sb, chunk_pos, grass, dirt, n).len() == CHUNK_VOLUME,
        chunk_ids_known(biome_upto(blocks, sb, chunk_pos, grass, dirt, n), bp),
    decreases n,
{
    if n > 0 {
        lemma_biome_ids(blocks, sb, chunk_pos, grass, dirt, n - 1, bp);
        let prev = biome_upto(blocks, sb, chunk_pos, grass, dirt, n - 1);
        let y0 = under_beam(sb, chunk_pos, n - 1);
        if 0 <= y0 < 32 {
            lemma_bury_ids(prev, n - 1, y0, 0, grass, dirt, bp);
            lemma_bury_len(prev, n - 1, y0, 0, grass, dirt);
        }
    }
}

proof fn lemma_biome_len(
    blocks: Seq<Block>,
    sb: crate::sun_beams::SunBeams,
    chunk_pos: IVec3,
    grass: Block,
    dirt: Block,
    n: int,
)
    requires
        blocks.len() == CHUNK_VOLUME,
        n <= CHUNK_AREA,
    ensures
        biome_upto(blocks, sb, chunk_pos, grass, dirt, n).len() == CHUNK_VOLUME,
    decreases n,
{
    if n > 0 {
        lemma_biome_len(blocks, sb, chunk_pos, grass, dirt, n - 1);
        lemma_bury_len(biome_upto(blocks, sb, chunk_pos, grass, dirt, n - 1), n - 1, under_beam(sb, chunk_pos, n - 1), 0, grass, dirt);
    }
}

/// Buries column `c` from height `y0` down (see [`bury`]).
fn bury_column(blocks: &mut Vec<Block>, c: usize, y0: i32, grass: Block, dirt: Block)
    requires
        old(blocks)@.len() == CHUNK_VOLUME,
        c < CHUNK_AREA,
        0 <= y0 < 32,
    ensures
        final(blocks)@ == bury(old(blocks)@, c as int, y0 as int, 0, grass, dirt),
{
    let ghost b0 = blocks@;
    let mut h: i32 = 0;
    while h < 3
        invariant
            b0 == old(blocks)@,
            0 <= h <= 3,
            0 <= y0 < 32,
            c < CHUNK_AREA,
            blocks@.len() == CHUNK_VOLUME,
            bury(blocks@, c as int, y0 as int, h as int, grass, dirt) == bury(b0, c as int, y0 as int, 0, grass, dirt),
        decreases 3 - h,
    {
        let y = y0 - h;
        if y < 0 {
            h = h + 1;
            continue;
        }
        proof {
            lemma_col_in_chunk(c as int, y as int);
        }
        let xyz = IVec3 { x: (c % 32) as i32, y, z: (c / 32) as i32 };
        let idx = crate::chunk::xyz2idx(xyz);
        proof {
            assert(xyz == col_pos(c as int, y as int));
        }
        if !blocks[idx].opaque() {
            proof {
                assert(bury(blocks@, c as int, y0 as int, h as int, grass, dirt) == blocks@);
            }
            return;
        }
        let b = if h == 0 {
            grass
        } else {
            dirt
        };
        let ghost before = blocks@;
        blocks.set(idx, b);
        proof {
            assert(bury(before, c as int, y0 as int, h as int, grass, dirt) == bury(blocks@, c as int, y0 as int, h + 1, grass, dirt));
        }
        h = h + 1;
    }
}

/// The beam of column `xz`, stored first as the unshaded beam if the column
/// had none.
fn stored_beam(sun_beams: &mut crate::sun_beams::SunBeams, xz: IVec2) -> (r: crate::sun_beams::SunBeam)
    requires
        crate::terrain::beams_safe(*old(sun_beams)),
    ensures
        r == old(sun_beams).beam_at(xz),
        crate::terrain::beam_coord_safe(r.bottom as int),
        crate::terrain::beams_safe(*final(sun_beams)),
        final(sun_beams).beams@ == old(sun_beams).beams@.insert(crate::ivec::plane_key(xz), r),
        forall|xz2: IVec2| #[trigger] final(sun_beams).beam_at(xz2) == old(sun_beams).beam_at(xz2),
{
    let ghost sb0 = *sun_beams;
    let beam = sun_beams.get_at_mut(&xz);
    let r = *beam;
    proof {
        assert(crate::terrain::beam_coord_safe(r.bottom as int)) by {
            if sb0.beams@.contains_key(crate::ivec::plane_key(xz)) {
            }
        }
    }
    proof {
        assert forall|xz2: IVec2| #[trigger] sun_beams.beam_at(xz2) == sb0.beam_at(xz2) by {
            if crate::ivec::plane_key(xz2) == crate::ivec::plane_key(xz) {
                crate::ivec::lemma_plane_key_injective(xz2, xz);
            }
        }
        assert forall|k: u64| #[trigger] sun_beams.beams@.contains_key(k) implies crate::terrain::beam_coord_safe(
            sun_beams.beams@[k].bottom as int,
        ) && crate::terrain::beam_coord_safe(sun_beams.beams@[k].top as int) by {
            if k != crate::ivec::plane_key(xz) {
                assert(sb0.beams@.contains_key(k));
            } else if sb0.beams@.contains_key(k) {
                assert(sun_beams.beams@[k] == sb0.beams@[k]);
            }
        }
    }
    r
}

/// The grass block and the dirt block of the blueprints.
fn grass_and_dirt(bp: &Blueprints) -> (r: (Block, Block))
    requires
        bp.wf(),
        bp.has_named("Grass"@),
        bp.has_named("Dirt"@),
    ensures
        r.0 == crate::block::block_from(bp.blocks@[bp.first_named("Grass"@)]),
        r.1 == crate::block::block_from(bp.blocks@[bp.first_named("Dirt"@)]),
        crate::block::made_from(r.0, bp.blocks@[bp.first_named("Grass"@)]),
        crate::block::made_from(r.1, bp.blocks@[bp.first_named("Dirt"@)]),
        0 <= bp.first_named("Grass"@) < bp.blocks@.len(),
        0 <= bp.first_named("Dirt"@) < bp.blocks@.len(),
{
    let g = bp.get_named("Grass");
    let d = bp.get_named("Dirt");
    (Block::new(g), Block::new(d))
}

impl ChunkGenerationState {
    /// The biome pass: under the bottom of the sun beam of every column, when
    /// it lies in this chunk, the opaque top block becomes grass and the two
    /// below become dirt (stopping at the first block that is not opaque).
    /// Every column of the chunk gets a stored beam; no beam changes. The
    /// chunk then moves on to the lighting pass.
    pub fn biome_pass(&mut self, chunk_pos: IVec3, sun_beams: &mut crate::sun_beams::SunBeams, bp: &Blueprints)
        requires
            old(self).wf(),
            old(self).chunk.is_some(),
            crate::terrain::pos_safe(chunk_pos),
            crate::terrain::beams_safe(*old(sun_beams)),
            bp.wf(),
            bp.has_named("Grass"@),
            bp.has_named("Dirt"@),
        ensures
            final(self).wf(),
            final(self).pass == GenerationPass::Lighting,
            final(self).chunk.is_some(),
            final(self).chunk.unwrap().blocks@ == biome_upto(
                old(self).chunk.unwrap().blocks@,
                *old(sun_beams),
                chunk_pos,
                crate::block::block_from(bp.blocks@[bp.first_named("Grass"@)]),
                crate::block::block_from(bp.blocks@[bp.first_named("Dirt"@)]),
                CHUNK_AREA as int,
            ),
            final(self).chunk.unwrap().version == old(self).chunk.unwrap().version,
            final(self).chunk.unwrap().properties == old(self).chunk.unwrap().properties,
            final(self).pos == old(self).pos,
            final(self).priority == old(self).priority,
            final(self).current_block == old(self).current_block,
            final(self).depends_on == old(self).depends_on,
            final(self).blocks_lowest == old(self).blocks_lowest,
            final(self).blocks_beams == old(self).blocks_beams,
            crate::terrain::beams_safe(*final(sun_beams)),
            forall|xz: IVec2| #[trigger] final(sun_beams).beam_at(xz) == old(sun_beams).beam_at(xz),
            forall|k: u64|
                #[trigger] final(sun_beams).beams@.contains_key(k) <==> old(sun_beams).beams@.contains_key(k)
                    || exists|c: int|
                    0 <= c < CHUNK_AREA && k == crate::ivec::plane_key(#[trigger] column_world(chunk_pos, c)),
            crate::block::made_from(grass_block(*bp), bp.blocks@[bp.first_named("Grass"@)]),
            crate::block::made_from(dirt_block(*bp), bp.blocks@[bp.first_named("Dirt"@)]),
            0 <= bp.first_named("Grass"@) < bp.blocks@.len(),
            0 <= bp.first_named("Dirt"@) < bp.blocks@.len(),
    {
        let (grass, dirt) = grass_and_dirt(bp);
        self.bury_under_beams(chunk_pos, sun_beams, grass, dirt);
    }

    /// Buries every column under its beam with the given blocks.
    fn bury_under_beams(&mut self, chunk_pos: IVec3, sun_beams: &mut crate::sun_beams::SunBeams, grass: Block, dirt: Block)
        requires
            old(self).wf(),
            old(self).chunk.is_some(),
            crate::terrain::pos_safe(chunk_pos),
            crate::terrain::beams_safe(*old(sun_beams)),
        ensures
            final(self).wf(),
            final(self).pass == GenerationPass::Lighting,
            final(self).chunk.is_some(),
            final(self).chunk.unwrap().blocks@ == biome_upto(
                old(self).chunk.unwrap().blocks@,
                *old(sun_beams),
                chunk_pos,
                grass,
                dirt,
                CHUNK_AREA as int,
            ),
            final(self).chunk.unwrap().version == old(self).chunk.unwrap().version,
            final(self).chunk.unwrap().properties == old(self).chunk.unwrap().properties,
            final(self).pos == old(self).pos,
            final(self).priority == old(self).priority,
            final(self).current_block == old(self).current_block,
            final(self).depends_on == old(self).depends_on,
            final(self).blocks_lowest == old(self).blocks_lowest,
            final(self).blocks_beams == old(self).blocks_beams,
            crate::terrain::beams_safe(*final(sun_beams)),
            forall|xz: IVec2| #[trigger] final(sun_beams).beam_at(xz) == old(sun_beams).beam_at(xz),
            forall|k: u64|
                #[trigger] final(sun_beams).beams@.contains_key(k) <==> old(sun_beams).beams@.contains_key(k)
                    || exists|c: int|
                    0 <= c < CHUNK_AREA && k == crate::ivec::plane_key(#[trigger] column_world(chunk_pos, c)),
    {
        let ghost sb0 = *sun_beams;
        let mut chunk = match self.chunk.take() {
            Some(c) => c,
            None => {
                proof {
                    assert(false);
                }
                Chunk::empty()
            },
        };
        let ghost c0 = chunk;
        let ghost b0 = chunk.blocks@;
        let mut c: usize = 0;
        while c < CHUNK_AREA
            invariant
                c <= CHUNK_AREA,
                chunk.version == c0.version,
                chunk.properties == c0.properties,
                crate::terrain::pos_safe(chunk_pos),
                b0.len() == CHUNK_VOLUME,
                chunk.blocks@.len() == CHUNK_VOLUME,
                chunk.blocks@ == biome_upto(b0, sb0, chunk_pos, grass, dirt, c as int),
                crate::terrain::beams_safe(sb0),
                crate::terrain::beams_safe(*sun_beams),
                forall|xz: IVec2| #[trigger] sun_beams.beam_at(xz) == sb0.beam_at(xz),
                forall|k: u64|
                    #[trigger] sun_beams.beams@.contains_key(k) <==> sb0.beams@.contains_key(k) || exists|j: int|
                        0 <= j < c && k == crate::ivec::plane_key(#[trigger] column_world(chunk_pos, j)),
            decreases CHUNK_AREA - c,
        {
            let x = (c % 32) as i32;
            let z = (c / 32) as i32;
            let xz = IVec2 { x: x + chunk_pos.x, y: z + chunk_pos.z };
            proof {
                assert(xz == column_world(chunk_pos, c as int));
            }
            let beam = stored_beam(sun_beams, xz);
            let bottom = beam.bottom;
            proof {
                assert forall|k: u64|
                    #[trigger] sun_beams.beams@.contains_key(k) <==> sb0.beams@.contains_key(k) || exists|j: int|
                        0 <= j < c + 1 && k == crate::ivec::plane_key(#[trigger] column_world(chunk_pos, j)) by {
                    if k == crate::ivec::plane_key(xz) {
                        assert(0 <= c < c + 1 && k == crate::ivec::plane_key(column_world(chunk_pos, c as int)));
                    } else {
                        if exists|j: int|
                            0 <= j < c + 1 && k == crate::ivec::plane_key(#[trigger] column_world(chunk_pos, j)) {
                            let j = choose|j: int|
                                0 <= j < c + 1 && k == crate::ivec::plane_key(#[trigger] column_world(chunk_pos, j));
                            assert(j != c);
                            assert(0 <= j < c && k == crate::ivec::plane_key(column_world(chunk_pos, j)));
                        }
                    }
                }
            }
            let y0 = bottom as i64 - 1 - chunk_pos.y as i64;
            let ghost prev = chunk.blocks@;
            if 0 <= y0 && y0 < 32 {
                bury_column(&mut chunk.blocks, c, y0 as i32, grass, dirt);
            }
            proof {
                assert(under_beam(sb0, chunk_pos, c as int) == y0);
                lemma_bury_len(prev, c as int, y0 as int, 0, grass, dirt);
            }
            c = c + 1;
        }
        self.chunk = Some(chunk);
        self.pass = GenerationPass::Lighting;
    }
}

} // verus!

verus! {

/// `p`, relative to the chunk at `chunk_pos`, lies just outside that chunk.
pub open spec fn just_outside(chunk_pos: IVec3, p: IVec3) -> bool {
    let rel = IVec3 {
        x: (p.x - chunk_pos.x) as i32,
        y: (p.y - chunk_pos.y) as i32,
        z: (p.z - chunk_pos.z) as i32,
    };
    &&& !in_chunk(rel)
    &&& crate::lighting::near_chunk(rel)
}

/// The sources past the end of `before` in `after` lie just outside the
/// chunk at `chunk_pos` and are dimmer than full light.
pub open spec fn leaks_around(before: Seq<crate::lighting::LightSource>, after: Seq<crate::lighting::LightSource>, chunk_pos: IVec3) -> bool {
    &&& before.is_prefix_of(after)
    &&& forall|i: int|
        #![trigger after[i]]
        before.len() <= i < after.len() ==> just_outside(chunk_pos, after[i].pos) && after[i].brightness < 15
}

/// The block at `p` (relative to the chunk at `chunk_pos`) lies in the sun
/// beam of its column.
pub open spec fn pos_in_beam(sb: crate::sun_beams::SunBeams, chunk_pos: IVec3, p: IVec3) -> bool {
    sb.beam_at(IVec2 { x: (p.x + chunk_pos.x) as i32, y: (p.z + chunk_pos.z) as i32 }).has(
        p.y + chunk_pos.y,
    )
}

/// Both lights of `b` are at least those of `a`, the rest being equal.
pub open spec fn brighter_both(a: Block, b: Block) -> bool {
    &&& b.id == a.id
    &&& b.properties == a.properties
    &&& b.light_of(LightType::Sun) >= a.light_of(LightType::Sun)
    &&& b.light_of(LightType::Torch) >= a.light_of(LightType::Torch)
}

/// What the lighting pass leaves at a block: a light source (of brightness
/// `level`) has at least that sun light, a block in a sun beam full sun
/// light, any other block at least its sun light; torch light only grows.
pub open spec fn lit_block(before: Block, after: Block, level: int, in_beam: bool) -> bool {
    &&& after.id == before.id
    &&& after.properties == before.properties
    &&& after.light_of(LightType::Torch) >= before.light_of(LightType::Torch)
    &&& if level > 0 {
        after.light_of(LightType::Sun) >= level
    } else if in_beam {
        after.light_of(LightType::Sun) == 15
    } else {
        after.light_of(LightType::Sun) >= before.light_of(LightType::Sun)
    }
}

/// The brightness of the blueprint of block `b`.
pub open spec fn source_level(bp: Blueprints, b: Block) -> int {
    bp.blocks@[b.id as int].light_level as int
}

proof fn lemma_brighter_both_trans(a: Block, b: Block, c: Block)
    requires
        brighter_both(a, b),
        brighter_both(b, c),
    ensures
        brighter_both(a, c),
{
}

/// The leaks of a chunk, moved from chunk to world coordinates.
fn shift_leaks(leaks: &Vec<crate::lighting::LightSource>, chunk_pos: IVec3) -> (r: Vec<crate::lighting::LightSource>)
    requires
        crate::terrain::pos_safe(chunk_pos),
        forall|i: int|
            #![trigger leaks@[i]]
            0 <= i < leaks@.len() ==> !in_chunk(leaks@[i].pos) && crate::lighting::near_chunk(leaks@[i].pos)
                && leaks@[i].brightness < 15,
    ensures
        r@.len() == leaks@.len(),
        forall|i: int|
            #![trigger r@[i]]
            0 <= i < r@.len() ==> r@[i].pos == (IVec3 {
                x: (leaks@[i].pos.x + chunk_pos.x) as i32,
                y: (leaks@[i].pos.y + chunk_pos.y) as i32,
                z: (leaks@[i].pos.z + chunk_pos.z) as i32,
            }) && r@[i].brightness == leaks@[i].brightness && just_outside(chunk_pos, r@[i].pos)
                && r@[i].brightness < 15,
{
    let mut r: Vec<crate::lighting::LightSource> = Vec::new();
    let mut i: usize = 0;
    while i < leaks.len()
        invariant
            i <= leaks@.len(),
            r@.len() == i,
            crate::terrain::pos_safe(chunk_pos),
            forall|j: int|
                #![trigger leaks@[j]]
                0 <= j < leaks@.len() ==> !in_chunk(leaks@[j].pos) && crate::lighting::near_chunk(leaks@[j].pos)
                    && leaks@[j].brightness < 15,
            forall|j: int|
                #![trigger r@[j]]
                0 <= j < i ==> r@[j].pos == (IVec3 {
                    x: (leaks@[j].pos.x + chunk_pos.x) as i32,
                    y: (leaks@[j].pos.y + chunk_pos.y) as i32,
                    z: (leaks@[j].pos.z + chunk_pos.z) as i32,
                }) && r@[j].brightness == leaks@[j].brightness && just_outside(chunk_pos, r@[j].pos)
                    && r@[j].brightness < 15,
        decreases leaks.len() - i,
    {
        let l = leaks[i];
        proof {
            assert(!in_chunk(leaks@[i as int].pos));
        }
        let p = IVec3 { x: l.pos.x + chunk_pos.x, y: l.pos.y + chunk_pos.y, z: l.pos.z + chunk_pos.z };
        r.push(crate::lighting::LightSource { pos: p, brightness: l.brightness });
        proof {
            assert(r@[i as int].pos == p);
        }
        i = i + 1;
    }
    r
}

/// `l` moved from the chunk at `chunk_pos` to world coordinates.
pub open spec fn to_world(l: crate::lighting::LightSource, chunk_pos: IVec3) -> crate::lighting::LightSource {
    crate::lighting::LightSource {
        pos: IVec3 {
            x: (l.pos.x + chunk_pos.x) as i32,
            y: (l.pos.y + chunk_pos.y) as i32,
            z: (l.pos.z + chunk_pos.z) as i32,
        },
        brightness: l.brightness,
    }
}

/// Light of kind `lt` has been passed on from `p` in direction `d`, in the
/// chunk at `chunk_pos`: a neighbour in the chunk that lets light through is
/// at most one level darker than `p`, and light reaching past the border is
/// among the world sources `dst`.
pub open spec fn dir_settled_world(s: Seq<Block>, dst: Seq<crate::lighting::LightSource>, chunk_pos: IVec3, p: IVec3, d: int, lt: LightType) -> bool {
    let q = crate::lighting::step(p, d);
    let l = crate::lighting::light_at(s, p, lt);
    if in_chunk(q) {
        !s[index_of(q)].is_opaque() ==> crate::lighting::light_at(s, q, lt) + 2 > l
    } else {
        l > 0 ==> dst.contains(to_world(crate::lighting::LightSource { pos: q, brightness: (l - 1) as u8 }, chunk_pos))
    }
}

/// Light of kind `lt` has been passed on from `p` in all six directions.
pub open spec fn settled_world(s: Seq<Block>, dst: Seq<crate::lighting::LightSource>, chunk_pos: IVec3, p: IVec3, lt: LightType) -> bool {
    forall|d: int| 0 <= d < 6 ==> #[trigger] dir_settled_world(s, dst, chunk_pos, p, d, lt)
}

/// Light stays passed on from `q` while its own light stays, its neighbours
/// in the chunk do not darken nor change their flags, and no world source is
/// dropped.
pub proof fn lemma_settled_world_keep(
    s1: Seq<Block>,
    s2: Seq<Block>,
    dst1: Seq<crate::lighting::LightSource>,
    dst2: Seq<crate::lighting::LightSource>,
    chunk_pos: IVec3,
    q: IVec3,
    lt: LightType,
)
    requires
        s1.len() == CHUNK_VOLUME,
        s2.len() == CHUNK_VOLUME,
        in_chunk(q),
        crate::lighting::light_at(s2, q, lt) == crate::lighting::light_at(s1, q, lt),
        forall|d: int|
            0 <= d < 6 && in_chunk(#[trigger] crate::lighting::step(q, d)) ==> crate::lighting::light_at(
                s2,
                crate::lighting::step(q, d),
                lt,
            ) >= crate::lighting::light_at(s1, crate::lighting::step(q, d), lt)
                && s2[index_of(crate::lighting::step(q, d))].properties == s1[index_of(
                crate::lighting::step(q, d),
            )].properties,
        dst1.is_prefix_of(dst2),
        settled_world(s1, dst1, chunk_pos, q, lt),
    ensures
        settled_world(s2, dst2, chunk_pos, q, lt),
{
    assert forall|d: int| 0 <= d < 6 implies #[trigger] dir_settled_world(s2, dst2, chunk_pos, q, d, lt) by {
        assert(dir_settled_world(s1, dst1, chunk_pos, q, d, lt));
        let nq = crate::lighting::step(q, d);
        let l = crate::lighting::light_at(s1, q, lt);
        if !in_chunk(nq) && l > 0 {
            let src = to_world(crate::lighting::LightSource { pos: nq, brightness: (l - 1) as u8 }, chunk_pos);
            let j = choose|j: int| 0 <= j < dst1.len() && dst1[j] == src;
            assert(dst2[j] == src);
        }
    }
}

/// `q` is `p` or one of its six neighbours.
pub open spec fn near_pos(p: IVec3, q: IVec3) -> bool {
    q == p || exists|d: int| 0 <= d < 6 && #[trigger] crate::lighting::step(q, d) == p
}

/// Propagates light of kind `lt` from `p` through the blocks and appends
/// what leaks, in world coordinates, to `dst`.
fn propagate_from(
    blocks: &mut Vec<Block>,
    chunk_pos: IVec3,
    p: IVec3,
    lt: LightType,
    dst: &mut Vec<crate::lighting::LightSource>,
)
    requires
        old(blocks)@.len() == CHUNK_VOLUME,
        in_chunk(p),
        crate::terrain::pos_safe(chunk_pos),
        crate::terrain::sources_bright_ok(old(dst)@),
    ensures
        crate::lighting::only_brighter(old(blocks)@, final(blocks)@, lt),
        leaks_around(old(dst)@, final(dst)@, chunk_pos),
        crate::terrain::sources_bright_ok(final(dst)@),
        forall|q: IVec3|
            in_chunk(q) && (q == p || crate::lighting::light_at(final(blocks)@, q, lt) != crate::lighting::light_at(
                old(blocks)@,
                q,
                lt,
            )) ==> #[trigger] settled_world(final(blocks)@, final(dst)@, chunk_pos, q, lt),
{
    let mut sources: Vec<IVec3> = Vec::new();
    sources.push(p);
    proof {
        assert(sources@.contains(p)) by {
            assert(sources@[0] == p);
        }
    }
    let leaked = crate::lighting::propagate_light_chunk(blocks, sources, lt);
    let shifted = shift_leaks(&leaked, chunk_pos);
    let ghost d0 = dst@;
    crate::terrain::append_sources(dst, &shifted);
    proof {
        assert forall|q: IVec3|
            in_chunk(q) && (q == p || crate::lighting::light_at(blocks@, q, lt) != crate::lighting::light_at(
                old(blocks)@,
                q,
                lt,
            )) implies #[trigger] settled_world(blocks@, dst@, chunk_pos, q, lt) by {
            assert(sources@.contains(q) || q != p);
            assert(crate::lighting::settled(blocks@, leaked@, q, lt));
            assert forall|d: int| 0 <= d < 6 implies #[trigger] dir_settled_world(blocks@, dst@, chunk_pos, q, d, lt) by {
                assert(crate::lighting::dir_settled(blocks@, leaked@, q, d, lt));
                let nq = crate::lighting::step(q, d);
                let l = crate::lighting::light_at(blocks@, q, lt);
                if !in_chunk(nq) && l > 0 {
                    let src = crate::lighting::LightSource { pos: nq, brightness: (l - 1) as u8 };
                    assert(leaked@.contains(src));
                    let i = choose|i: int| 0 <= i < leaked@.len() && leaked@[i] == src;
                    assert(shifted@[i] == to_world(src, chunk_pos));
                    assert(dst@[d0.len() + i] == shifted@[i]);
                }
            }
        }
        assert(d0.is_prefix_of(dst@)) by {
            assert(dst@.subrange(0, d0.len() as int) =~= d0);
        }
        assert forall|i: int| #![trigger dst@[i]] d0.len() <= i < dst@.len() implies just_outside(chunk_pos, dst@[i].pos)
            && dst@[i].brightness < 15 by {
            assert(dst@[i] == shifted@[i - d0.len()]);
        }
    }
}

/// Lights the block at `p`: full sun light when it lies in a sun beam, then
/// the sun light of its own brightness `level` when it emits light; then
/// the light of each kind that was set spreads from it.
fn light_position(
    blocks: &mut Vec<Block>,
    chunk_pos: IVec3,
    p: IVec3,
    in_beam: bool,
    level: u8,
    light_sources: &mut crate::terrain::LightSources,
)
    requires
        old(blocks)@.len() == CHUNK_VOLUME,
        in_chunk(p),
        crate::terrain::pos_safe(chunk_pos),
        level <= MAX_LIGHT,
        old(light_sources).wf(),
    ensures
        final(blocks)@.len() == CHUNK_VOLUME,
        lit_block(old(blocks)@[index_of(p)], final(blocks)@[index_of(p)], level as int, in_beam),
        forall|i: int|
            0 <= i < CHUNK_VOLUME && i != index_of(p) ==> #[trigger] brighter_both(old(blocks)@[i], final(blocks)@[i]),
        final(light_sources).wf(),
        crate::terrain::leaked_appended(*old(light_sources), *final(light_sources)),
        leaks_around(old(light_sources).leaked_sources.sun@, final(light_sources).leaked_sources.sun@, chunk_pos),
        leaks_around(old(light_sources).leaked_sources.torch@, final(light_sources).leaked_sources.torch@, chunk_pos),
        forall|q: IVec3|
            in_chunk(q) && (settled_world(old(blocks)@, old(light_sources).leaked_sources.torch@, chunk_pos, q, LightType::Torch)
                || (q == p && level > 0) || crate::lighting::light_at(final(blocks)@, q, LightType::Torch)
                != crate::lighting::light_at(old(blocks)@, q, LightType::Torch)) ==> #[trigger] settled_world(
                final(blocks)@,
                final(light_sources).leaked_sources.torch@,
                chunk_pos,
                q,
                LightType::Torch,
            ),
        forall|q: IVec3|
            in_chunk(q) && !(level > 0 && near_pos(p, q)) && (settled_world(
                old(blocks)@,
                old(light_sources).leaked_sources.sun@,
                chunk_pos,
                q,
                LightType::Sun,
            ) || (q == p && in_beam) || crate::lighting::light_at(final(blocks)@, q, LightType::Sun)
                != crate::lighting::light_at(old(blocks)@, q, LightType::Sun)) ==> #[trigger] settled_world(
                final(blocks)@,
                final(light_sources).leaked_sources.sun@,
                chunk_pos,
                q,
                LightType::Sun,
            ),
{
    let ghost b0 = blocks@;
    let ghost ls0 = *light_sources;
    let idx = crate::chunk::xyz2idx(p);
    if in_beam {
        let mut b = blocks[idx];
        b.set_light(LightType::Sun, MAX_LIGHT);
        blocks.set(idx, b);
    }
    let is_source = level > 0;
    if is_source {
        let mut b = blocks[idx];
        b.set_light(LightType::Sun, level);
        blocks.set(idx, b);
    }
    let ghost b1 = blocks@;
    proof {
        assert forall|i: int| 0 <= i < CHUNK_VOLUME && i != idx implies b1[i] == b0[i] by {
        }
        crate::lighting::lemma_only_brighter_refl(b1, LightType::Sun);
        crate::lighting::lemma_only_brighter_refl(b1, LightType::Torch);
    }
    if in_beam {
        propagate_from(blocks, chunk_pos, p, LightType::Sun, &mut light_sources.leaked_sources.sun);
    }
    let ghost b2 = blocks@;
    let ghost ls2 = *light_sources;
    if is_source {
        propagate_from(blocks, chunk_pos, p, LightType::Torch, &mut light_sources.leaked_sources.torch);
    }
    let ghost b3 = blocks@;
    proof {
        lemma_light_position_settled(b0, b1, b2, b3, ls0, ls2, *light_sources, chunk_pos, p, in_beam, level);
    }
    proof {
        assert(crate::lighting::only_brighter(b1, b2, LightType::Sun));
        assert(crate::lighting::only_brighter(b2, b3, LightType::Torch));
        assert(b3.len() == CHUNK_VOLUME);
        assert forall|i: int| 0 <= i < CHUNK_VOLUME implies #[trigger] brighter_both(b1[i], b3[i]) by {
            assert(b2[i].id == b1[i].id);
            assert(b3[i].id == b2[i].id);
        }
        assert(brighter_both(b1[idx as int], b3[idx as int]));
        assert forall|i: int|
            0 <= i < CHUNK_VOLUME && i != index_of(p) implies #[trigger] brighter_both(b0[i], b3[i]) by {
            assert(b1[i] == b0[i]);
            assert(brighter_both(b1[i], b3[i]));
        }
        crate::block::lemma_light_bounds(b3[idx as int].light);
        if !in_beam && !is_source {
            assert(b1[idx as int] == b0[idx as int]);
        }
        assert(light_sources.leaked_sources.sun@.subrange(0, light_sources.leaked_sources.sun@.len() as int)
            =~= light_sources.leaked_sources.sun@);
        assert(light_sources.leaked_sources.torch@.subrange(0, light_sources.leaked_sources.torch@.len() as int)
            =~= light_sources.leaked_sources.torch@);
    }
}


proof fn lemma_light_position_settled(
    b0: Seq<Block>,
    b1: Seq<Block>,
    b2: Seq<Block>,
    b3: Seq<Block>,
    ls0: crate::terrain::LightSources,
    ls2: crate::terrain::LightSources,
    ls3: crate::terrain::LightSources,
    chunk_pos: IVec3,
    p: IVec3,
    in_beam: bool,
    level: u8,
)
    requires
        b0.len() == CHUNK_VOLUME,
        in_chunk(p),
        forall|i: int| 0 <= i < CHUNK_VOLUME && i != index_of(p) ==> b1[i] == b0[i],
        b1.len() == CHUNK_VOLUME,
        b1[index_of(p)].properties == b0[index_of(p)].properties,
        b1[index_of(p)].light_of(LightType::Torch) == b0[index_of(p)].light_of(LightType::Torch),
        level == 0 && in_beam ==> b1[index_of(p)].light_of(LightType::Sun) == 15,
        level == 0 && !in_beam ==> b1[index_of(p)] == b0[index_of(p)],
        crate::lighting::only_brighter(b1, b2, LightType::Sun),
        crate::lighting::only_brighter(b2, b3, LightType::Torch),
        ls2.leaked_sources.torch@ == ls0.leaked_sources.torch@,
        ls3.leaked_sources.sun@ == ls2.leaked_sources.sun@,
        ls0.leaked_sources.sun@.is_prefix_of(ls2.leaked_sources.sun@),
        ls2.leaked_sources.torch@.is_prefix_of(ls3.leaked_sources.torch@),
        !in_beam ==> b2 == b1 && ls2.leaked_sources.sun@ == ls0.leaked_sources.sun@,
        level == 0 ==> b3 == b2 && ls3.leaked_sources.torch@ == ls2.leaked_sources.torch@,
        in_beam ==> forall|q: IVec3|
            in_chunk(q) && (q == p || crate::lighting::light_at(b2, q, LightType::Sun) != crate::lighting::light_at(
                b1,
                q,
                LightType::Sun,
            )) ==> #[trigger] settled_world(b2, ls2.leaked_sources.sun@, chunk_pos, q, LightType::Sun),
        level > 0 ==> forall|q: IVec3|
            in_chunk(q) && (q == p || crate::lighting::light_at(b3, q, LightType::Torch) != crate::lighting::light_at(
                b2,
                q,
                LightType::Torch,
            )) ==> #[trigger] settled_world(b3, ls3.leaked_sources.torch@, chunk_pos, q, LightType::Torch),
    ensures
        forall|q: IVec3|
            in_chunk(q) && (settled_world(b0, ls0.leaked_sources.torch@, chunk_pos, q, LightType::Torch) || (q == p
                && level > 0) || crate::lighting::light_at(b3, q, LightType::Torch) != crate::lighting::light_at(
                b0,
                q,
                LightType::Torch,
            )) ==> #[trigger] settled_world(b3, ls3.leaked_sources.torch@, chunk_pos, q, LightType::Torch),
        forall|q: IVec3|
            in_chunk(q) && !(level > 0 && near_pos(p, q)) && (settled_world(
                b0,
                ls0.leaked_sources.sun@,
                chunk_pos,
                q,
                LightType::Sun,
            ) || (q == p && in_beam) || crate::lighting::light_at(b3, q, LightType::Sun) != crate::lighting::light_at(
                b0,
                q,
                LightType::Sun,
            )) ==> #[trigger] settled_world(b3, ls3.leaked_sources.sun@, chunk_pos, q, LightType::Sun),
{
    let ip = index_of(p);
    crate::chunk::lemma_index_of_pos(p);
    assert forall|q: IVec3|
        in_chunk(q) && (settled_world(b0, ls0.leaked_sources.torch@, chunk_pos, q, LightType::Torch) || (q == p
            && level > 0) || crate::lighting::light_at(b3, q, LightType::Torch) != crate::lighting::light_at(
            b0,
            q,
            LightType::Torch,
        )) implies #[trigger] settled_world(b3, ls3.leaked_sources.torch@, chunk_pos, q, LightType::Torch) by {
        crate::chunk::lemma_index_of_pos(q);
        let iq = index_of(q);
        assert(b2[iq].id == b1[iq].id);
        assert(b2[iq].light_of(LightType::Torch) == b1[iq].light_of(LightType::Torch));
        assert(b1[iq].light_of(LightType::Torch) == b0[iq].light_of(LightType::Torch));
        if (q == p && level > 0) || crate::lighting::light_at(b3, q, LightType::Torch) != crate::lighting::light_at(
            b0,
            q,
            LightType::Torch,
        ) {
        } else {
            assert forall|d: int|
                0 <= d < 6 && in_chunk(#[trigger] crate::lighting::step(q, d)) implies crate::lighting::light_at(
                b3,
                crate::lighting::step(q, d),
                LightType::Torch,
            ) >= crate::lighting::light_at(b0, crate::lighting::step(q, d), LightType::Torch)
                && b3[index_of(crate::lighting::step(q, d))].properties == b0[index_of(
                crate::lighting::step(q, d),
            )].properties by {
                let r = crate::lighting::step(q, d);
                crate::chunk::lemma_index_of_pos(r);
                let ir = index_of(r);
                assert(b2[ir].id == b1[ir].id);
                assert(b3[ir].id == b2[ir].id);
                assert(b2[ir].light_of(LightType::Torch) == b1[ir].light_of(LightType::Torch));
                assert(b3[ir].light_of(LightType::Torch) >= b2[ir].light_of(LightType::Torch));
                assert(b2[ir].properties == b1[ir].properties);
                assert(b3[ir].properties == b2[ir].properties);
            }
            lemma_settled_world_keep(b0, b3, ls0.leaked_sources.torch@, ls3.leaked_sources.torch@, chunk_pos, q, LightType::Torch);
        }
    }
    assert forall|q: IVec3|
        in_chunk(q) && !(level > 0 && near_pos(p, q)) && (settled_world(
            b0,
            ls0.leaked_sources.sun@,
            chunk_pos,
            q,
            LightType::Sun,
        ) || (q == p && in_beam) || crate::lighting::light_at(b3, q, LightType::Sun) != crate::lighting::light_at(
            b0,
            q,
            LightType::Sun,
        )) implies #[trigger] settled_world(b3, ls3.leaked_sources.sun@, chunk_pos, q, LightType::Sun) by {
        crate::chunk::lemma_index_of_pos(q);
        let iq = index_of(q);
        assert(b3[iq].id == b2[iq].id);
        assert(b3[iq].light_of(LightType::Sun) == b2[iq].light_of(LightType::Sun));
        assert forall|d: int|
            0 <= d < 6 && in_chunk(#[trigger] crate::lighting::step(q, d)) implies crate::lighting::light_at(
            b3,
            crate::lighting::step(q, d),
            LightType::Sun,
        ) == crate::lighting::light_at(b2, crate::lighting::step(q, d), LightType::Sun)
            && b3[index_of(crate::lighting::step(q, d))].properties == b2[index_of(
            crate::lighting::step(q, d),
        )].properties by {
            let r = crate::lighting::step(q, d);
            crate::chunk::lemma_index_of_pos(r);
            let ir = index_of(r);
            assert(b3[ir].id == b2[ir].id);
            assert(b3[ir].light_of(LightType::Sun) == b2[ir].light_of(LightType::Sun));
        }
        if (q == p && in_beam) || crate::lighting::light_at(b2, q, LightType::Sun) != crate::lighting::light_at(
            b1,
            q,
            LightType::Sun,
        ) {
            assert(settled_world(b2, ls2.leaked_sources.sun@, chunk_pos, q, LightType::Sun));
            lemma_settled_world_keep(b2, b3, ls2.leaked_sources.sun@, ls3.leaked_sources.sun@, chunk_pos, q, LightType::Sun);
        } else {
            // q is not p, or p takes no direct sun light: its light is that of b0.
            if q == p {
                assert(level == 0);
            }
            assert(crate::lighting::light_at(b1, q, LightType::Sun) == crate::lighting::light_at(b0, q, LightType::Sun));
            assert(settled_world(b0, ls0.leaked_sources.sun@, chunk_pos, q, LightType::Sun));
            assert forall|d: int|
                0 <= d < 6 && in_chunk(#[trigger] crate::lighting::step(q, d)) implies crate::lighting::light_at(
                b3,
                crate::lighting::step(q, d),
                LightType::Sun,
            ) >= crate::lighting::light_at(b0, crate::lighting::step(q, d), LightType::Sun)
                && b3[index_of(crate::lighting::step(q, d))].properties == b0[index_of(
                crate::lighting::step(q, d),
            )].properties by {
                let r = crate::lighting::step(q, d);
                crate::chunk::lemma_index_of_pos(r);
                let ir = index_of(r);
                assert(b2[ir].id == b1[ir].id);
                assert(b3[ir].id == b2[ir].id);
                assert(b2[ir].light_of(LightType::Sun) >= b1[ir].light_of(LightType::Sun));
                assert(b2[ir].properties == b1[ir].properties);
                if r == p {
                    assert(level == 0) by {
                        if level > 0 {
                            assert(near_pos(p, q));
                        }
                    }
                    crate::block::lemma_light_bounds(b0[ir].light);
                }
            }
            lemma_settled_world_keep(b0, b3, ls0.leaked_sources.sun@, ls3.leaked_sources.sun@, chunk_pos, q, LightType::Sun);
        }
    }
}

proof fn lemma_lit_then_brighter(b0: Block, b1: Block, b2: Block, level: int, in_beam: bool)
    requires
        lit_block(b0, b1, level, in_beam),
        brighter_both(b1, b2),
    ensures
        lit_block(b0, b2, level, in_beam),
{
    crate::block::lemma_light_bounds(b2.light);
}

proof fn lemma_brighter_then_lit(b0: Block, b1: Block, b2: Block, level: int, in_beam: bool)
    requires
        brighter_both(b0, b1),
        lit_block(b1, b2, level, in_beam),
    ensures
        lit_block(b0, b2, level, in_beam),
{
}

proof fn lemma_leaks_around_trans(
    a: Seq<crate::lighting::LightSource>,
    b: Seq<crate::lighting::LightSource>,
    c: Seq<crate::lighting::LightSource>,
    chunk_pos: IVec3,
)
    requires
        leaks_around(a, b, chunk_pos),
        leaks_around(b, c, chunk_pos),
    ensures
        leaks_around(a, c, chunk_pos),
{
    assert forall|i: int| #![trigger c[i]] a.len() <= i < c.len() implies just_outside(chunk_pos, c[i].pos)
        && c[i].brightness < 15 by {
        if i < b.len() {
            assert(c[i] == b[i]);
        }
    }
    assert(a.is_prefix_of(c)) by {
        assert forall|i: int| 0 <= i < a.len() implies a[i] == c[i] by {
            assert(a[i] == b[i]);
            assert(b[i] == c[i]);
        }
    }
}

proof fn lemma_leaked_appended_trans(a: crate::terrain::LightSources, b: crate::terrain::LightSources, c: crate::terrain::LightSources)
    requires
        crate::terrain::leaked_appended(a, b),
        crate::terrain::leaked_appended(b, c),
    ensures
        crate::terrain::leaked_appended(a, c),
{
    assert(a.leaked_sources.torch@.is_prefix_of(c.leaked_sources.torch@)) by {
        assert forall|i: int| 0 <= i < a.leaked_sources.torch@.len() implies a.leaked_sources.torch@[i]
            == c.leaked_sources.torch@[i] by {
            assert(a.leaked_sources.torch@[i] == b.leaked_sources.torch@[i]);
        }
    }
    assert(a.leaked_sources.sun@.is_prefix_of(c.leaked_sources.sun@)) by {
        assert forall|i: int| 0 <= i < a.leaked_sources.sun@.len() implies a.leaked_sources.sun@[i]
            == c.leaked_sources.sun@[i] by {
            assert(a.leaked_sources.sun@[i] == b.leaked_sources.sun@[i]);
        }
    }
}

/// Every block of the chunk has an identifier that the blueprints know.
pub open spec fn chunk_ids_known(blocks: Seq<Block>, bp: Blueprints) -> bool {
    forall|i: int| 0 <= i < blocks.len() ==> (#[trigger] blocks[i].id as int) < bp.blocks@.len()
}

/// The block at `r` lies in the chunk and emits light.
pub open spec fn source_at(bp: Blueprints, blocks: Seq<Block>, r: IVec3) -> bool {
    in_chunk(r) && source_level(bp, blocks[index_of(r)]) > 0
}

/// The block at `q`, or one of its six neighbours, emits light.
pub open spec fn touches_source(bp: Blueprints, blocks: Seq<Block>, q: IVec3) -> bool {
    source_at(bp, blocks, q) || exists|d: int| 0 <= d < 6 && #[trigger] source_at(bp, blocks, crate::lighting::step(q, d))
}

impl ChunkGenerationState {
    /// The lighting pass: every block in the sun beam of its column gets full
    /// sun light, every block that emits light gets its brightness as sun
    /// light, and each such light spreads from its block; what leaks out of
    /// the chunk is appended, in world coordinates, to the leaked sources.
    /// Every column of the chunk gets a stored beam; no beam changes. The
    /// chunk is then done. Torch light has then been passed on from every
    /// block that emits light and every block whose torch light rose; sun
    /// light from every block in a beam and every block whose sun light
    /// changed, away from the blocks that emit light (their sun light is set
    /// to their brightness without being passed on).
    #[verifier::rlimit(40)]
    #[verifier::spinoff_prover]
    pub fn lighting_pass(
        &mut self,
        chunk_pos: IVec3,
        sun_beams: &mut crate::sun_beams::SunBeams,
        bp: &Blueprints,
        light_sources: &mut crate::terrain::LightSources,
    )
        requires
            old(self).wf(),
            old(self).chunk.is_some(),
            crate::terrain::pos_safe(chunk_pos),
            crate::terrain::beams_safe(*old(sun_beams)),
            bp.wf(),
            chunk_ids_known(old(self).chunk.unwrap().blocks@, *bp),
            old(light_sources).wf(),
        ensures
            final(self).wf(),
            final(self).pass == GenerationPass::Done,
            final(self).chunk.is_some(),
            forall|i: int|
                0 <= i < CHUNK_VOLUME ==> #[trigger] lit_block(
                    old(self).chunk.unwrap().blocks@[i],
                    final(self).chunk.unwrap().blocks@[i],
                    source_level(*bp, old(self).chunk.unwrap().blocks@[i]),
                    pos_in_beam(*old(sun_beams), chunk_pos, pos_of(i)),
                ),
            final(self).chunk.unwrap().version == old(self).chunk.unwrap().version,
            final(self).chunk.unwrap().properties == old(self).chunk.unwrap().properties,
            final(self).pos == old(self).pos,
            final(self).priority == old(self).priority,
            final(self).current_block == old(self).current_block,
            final(self).depends_on == old(self).depends_on,
            final(self).blocks_lowest == old(self).blocks_lowest,
            final(self).blocks_beams == old(self).blocks_beams,
            crate::terrain::beams_safe(*final(sun_beams)),
            forall|xz: IVec2| #[trigger] final(sun_beams).beam_at(xz) == old(sun_beams).beam_at(xz),
            final(light_sources).wf(),
            crate::terrain::leaked_appended(*old(light_sources), *final(light_sources)),
            leaks_around(old(light_sources).leaked_sources.sun@, final(light_sources).leaked_sources.sun@, chunk_pos),
            leaks_around(old(light_sources).leaked_sources.torch@, final(light_sources).leaked_sources.torch@, chunk_pos),
            forall|q: IVec3|
                in_chunk(q) && (source_at(*bp, old(self).chunk.unwrap().blocks@, q) || crate::lighting::light_at(
                    final(self).chunk.unwrap().blocks@,
                    q,
                    LightType::Torch,
                ) != crate::lighting::light_at(old(self).chunk.unwrap().blocks@, q, LightType::Torch))
                    ==> #[trigger] settled_world(
                    final(self).chunk.unwrap().blocks@,
                    final(light_sources).leaked_sources.torch@,
                    chunk_pos,
                    q,
                    LightType::Torch,
                ),
            forall|q: IVec3|
                in_chunk(q) && !touches_source(*bp, old(self).chunk.unwrap().blocks@, q) && (pos_in_beam(
                    *old(sun_beams),
                    chunk_pos,
                    q,
                ) || crate::lighting::light_at(final(self).chunk.unwrap().blocks@, q, LightType::Sun)
                    != crate::lighting::light_at(old(self).chunk.unwrap().blocks@, q, LightType::Sun))
                    ==> #[trigger] settled_world(
                    final(self).chunk.unwrap().blocks@,
                    final(light_sources).leaked_sources.sun@,
                    chunk_pos,
                    q,
                    LightType::Sun,
                ),
    {
        let ghost sb0 = *sun_beams;
        let ghost ls0 = *light_sources;
        let mut chunk = match self.chunk.take() {
            Some(c) => c,
            None => {
                proof {
                    assert(false);
                }
                Chunk::empty()
            },
        };
        let ghost c0 = chunk;
        let ghost b0 = chunk.blocks@;
        proof {
            assert(ls0.leaked_sources.sun@.subrange(0, ls0.leaked_sources.sun@.len() as int) =~= ls0.leaked_sources.sun@);
            assert(ls0.leaked_sources.torch@.subrange(0, ls0.leaked_sources.torch@.len() as int) =~= ls0.leaked_sources.torch@);
        }
        let mut i: usize = 0;
        while i < CHUNK_VOLUME
            invariant
                i <= CHUNK_VOLUME,
                chunk.version == c0.version,
                chunk.properties == c0.properties,
                crate::terrain::pos_safe(chunk_pos),
                bp.wf(),
                b0.len() == CHUNK_VOLUME,
                chunk_ids_known(b0, *bp),
                chunk.blocks@.len() == CHUNK_VOLUME,
                forall|j: int|
                    0 <= j < i ==> #[trigger] lit_block(
                        b0[j],
                        chunk.blocks@[j],
                        source_level(*bp, b0[j]),
                        pos_in_beam(sb0, chunk_pos, pos_of(j)),
                    ),
                forall|j: int| i <= j < CHUNK_VOLUME ==> #[trigger] brighter_both(b0[j], chunk.blocks@[j]),
                crate::terrain::beams_safe(*sun_beams),
                forall|xz: IVec2| #[trigger] sun_beams.beam_at(xz) == sb0.beam_at(xz),
                light_sources.wf(),
                crate::terrain::leaked_appended(ls0, *light_sources),
                leaks_around(ls0.leaked_sources.sun@, light_sources.leaked_sources.sun@, chunk_pos),
                leaks_around(ls0.leaked_sources.torch@, light_sources.leaked_sources.torch@, chunk_pos),
                forall|q: IVec3|
                    in_chunk(q) && ((index_of(q) < i && source_at(*bp, b0, q)) || crate::lighting::light_at(
                        chunk.blocks@,
                        q,
                        LightType::Torch,
                    ) != crate::lighting::light_at(b0, q, LightType::Torch)) ==> #[trigger] settled_world(
                        chunk.blocks@,
                        light_sources.leaked_sources.torch@,
                        chunk_pos,
                        q,
                        LightType::Torch,
                    ),
                forall|q: IVec3|
                    in_chunk(q) && !touches_source(*bp, b0, q) && ((index_of(q) < i && pos_in_beam(sb0, chunk_pos, q))
                        || crate::lighting::light_at(chunk.blocks@, q, LightType::Sun) != crate::lighting::light_at(
                        b0,
                        q,
                        LightType::Sun,
                    )) ==> #[trigger] settled_world(chunk.blocks@, light_sources.leaked_sources.sun@, chunk_pos, q, LightType::Sun),
            decreases CHUNK_VOLUME - i,
        {
            let p = idx2xyz(i);
            proof {
                crate::chunk::lemma_pos_of_index(i as int);
            }
            let xz = IVec2 { x: p.x + chunk_pos.x, y: p.z + chunk_pos.z };
            let beam = stored_beam(sun_beams, xz);
            let in_beam = beam.contains(&(p.y + chunk_pos.y));
            proof {
                assert(in_beam == pos_in_beam(sb0, chunk_pos, pos_of(i as int)));
                assert(brighter_both(b0[i as int], chunk.blocks@[i as int]));
                assert((b0[i as int].id as int) < bp.blocks@.len());
            }
            let id = chunk.blocks[i].id;
            let level = bp.get(id).light_level;
            proof {
                assert(bp.blocks@[id as int].wf());
                assert(level == source_level(*bp, b0[i as int]));
            }
            let ghost before = chunk.blocks@;
            let ghost ls1 = *light_sources;
            proof {
                assert forall|j: int| 0 <= j < CHUNK_VOLUME implies #[trigger] before[j].id == b0[j].id by {
                    if j < i {
                        assert(lit_block(b0[j], before[j], source_level(*bp, b0[j]), pos_in_beam(sb0, chunk_pos, pos_of(j))));
                    } else {
                        assert(brighter_both(b0[j], before[j]));
                    }
                }
            }
            light_position(&mut chunk.blocks, chunk_pos, p, in_beam, level, light_sources);
            proof {
                lemma_lighting_step_settled(b0, before, chunk.blocks@, ls1, *light_sources, *bp, sb0, chunk_pos, i as int, in_beam, level);
            }
            proof {
                lemma_leaks_around_trans(ls0.leaked_sources.sun@, ls1.leaked_sources.sun@, light_sources.leaked_sources.sun@, chunk_pos);
                lemma_leaks_around_trans(ls0.leaked_sources.torch@, ls1.leaked_sources.torch@, light_sources.leaked_sources.torch@, chunk_pos);
                lemma_leaked_appended_trans(ls0, ls1, *light_sources);
                assert forall|j: int|
                    0 <= j < i + 1 implies #[trigger] lit_block(
                        b0[j],
                        chunk.blocks@[j],
                        source_level(*bp, b0[j]),
                        pos_in_beam(sb0, chunk_pos, pos_of(j)),
                    ) by {
                    if j < i {
                        assert(brighter_both(before[j], chunk.blocks@[j]));
                        lemma_lit_then_brighter(b0[j], before[j], chunk.blocks@[j], source_level(*bp, b0[j]), pos_in_beam(sb0, chunk_pos, pos_of(j)));
                    } else {
                        lemma_brighter_then_lit(b0[j], before[j], chunk.blocks@[j], source_level(*bp, b0[j]), pos_in_beam(sb0, chunk_pos, pos_of(j)));
                    }
                }
                assert forall|j: int| i + 1 <= j < CHUNK_VOLUME implies #[trigger] brighter_both(b0[j], chunk.blocks@[j]) by {
                    assert(brighter_both(b0[j], before[j]));
                    assert(brighter_both(before[j], chunk.blocks@[j]));
                    lemma_brighter_both_trans(b0[j], before[j], chunk.blocks@[j]);
                }
            }
            i = i + 1;
        }
        self.chunk = Some(chunk);
        self.pass = GenerationPass::Done;
    }
}


proof fn lemma_lighting_step_settled(
    b0: Seq<Block>,
    before: Seq<Block>,
    after: Seq<Block>,
    ls1: crate::terrain::LightSources,
    ls2: crate::terrain::LightSources,
    bp: Blueprints,
    sb0: crate::sun_beams::SunBeams,
    chunk_pos: IVec3,
    i: int,
    in_beam: bool,
    level: u8,
)
    requires
        0 <= i < CHUNK_VOLUME,
        b0.len() == CHUNK_VOLUME,
        before.len() == CHUNK_VOLUME,
        forall|j: int| 0 <= j < CHUNK_VOLUME ==> #[trigger] before[j].id == b0[j].id,
        level == source_level(bp, b0[i]),
        in_beam == pos_in_beam(sb0, chunk_pos, pos_of(i)),
        forall|q: IVec3|
            in_chunk(q) && ((index_of(q) < i && source_at(bp, b0, q)) || crate::lighting::light_at(
                before,
                q,
                LightType::Torch,
            ) != crate::lighting::light_at(b0, q, LightType::Torch)) ==> #[trigger] settled_world(
                before,
                ls1.leaked_sources.torch@,
                chunk_pos,
                q,
                LightType::Torch,
            ),
        forall|q: IVec3|
            in_chunk(q) && !touches_source(bp, b0, q) && ((index_of(q) < i && pos_in_beam(sb0, chunk_pos, q))
                || crate::lighting::light_at(before, q, LightType::Sun) != crate::lighting::light_at(
                b0,
                q,
                LightType::Sun,
            )) ==> #[trigger] settled_world(before, ls1.leaked_sources.sun@, chunk_pos, q, LightType::Sun),
        forall|q: IVec3|
            in_chunk(q) && (settled_world(before, ls1.leaked_sources.torch@, chunk_pos, q, LightType::Torch)
                || (q == pos_of(i) && level > 0) || crate::lighting::light_at(after, q, LightType::Torch)
                != crate::lighting::light_at(before, q, LightType::Torch)) ==> #[trigger] settled_world(
                after,
                ls2.leaked_sources.torch@,
                chunk_pos,
                q,
                LightType::Torch,
            ),
        forall|q: IVec3|
            in_chunk(q) && !(level > 0 && near_pos(pos_of(i), q)) && (settled_world(
                before,
                ls1.leaked_sources.sun@,
                chunk_pos,
                q,
                LightType::Sun,
            ) || (q == pos_of(i) && in_beam) || crate::lighting::light_at(after, q, LightType::Sun)
                != crate::lighting::light_at(before, q, LightType::Sun)) ==> #[trigger] settled_world(
                after,
                ls2.leaked_sources.sun@,
                chunk_pos,
                q,
                LightType::Sun,
            ),
    ensures
        forall|q: IVec3|
            in_chunk(q) && ((index_of(q) < i + 1 && source_at(bp, b0, q)) || crate::lighting::light_at(
                after,
                q,
                LightType::Torch,
            ) != crate::lighting::light_at(b0, q, LightType::Torch)) ==> #[trigger] settled_world(
                after,
                ls2.leaked_sources.torch@,
                chunk_pos,
                q,
                LightType::Torch,
            ),
        forall|q: IVec3|
            in_chunk(q) && !touches_source(bp, b0, q) && ((index_of(q) < i + 1 && pos_in_beam(sb0, chunk_pos, q))
                || crate::lighting::light_at(after, q, LightType::Sun) != crate::lighting::light_at(
                b0,
                q,
                LightType::Sun,
            )) ==> #[trigger] settled_world(after, ls2.leaked_sources.sun@, chunk_pos, q, LightType::Sun),
{
    let p = pos_of(i);
    crate::chunk::lemma_pos_of_index(i);
    assert forall|q: IVec3|
        in_chunk(q) && ((index_of(q) < i + 1 && source_at(bp, b0, q)) || crate::lighting::light_at(
            after,
            q,
            LightType::Torch,
        ) != crate::lighting::light_at(b0, q, LightType::Torch)) implies #[trigger] settled_world(
            after,
            ls2.leaked_sources.torch@,
            chunk_pos,
            q,
            LightType::Torch,
        ) by {
        crate::chunk::lemma_index_of_pos(q);
        if index_of(q) == i && source_at(bp, b0, q) {
            assert(q == p);
        } else if (index_of(q) < i && source_at(bp, b0, q)) || crate::lighting::light_at(
            before,
            q,
            LightType::Torch,
        ) != crate::lighting::light_at(b0, q, LightType::Torch) {
            assert(settled_world(before, ls1.leaked_sources.torch@, chunk_pos, q, LightType::Torch));
        }
    }
    assert forall|q: IVec3|
        in_chunk(q) && !touches_source(bp, b0, q) && ((index_of(q) < i + 1 && pos_in_beam(sb0, chunk_pos, q))
            || crate::lighting::light_at(after, q, LightType::Sun) != crate::lighting::light_at(
            b0,
            q,
            LightType::Sun,
        )) implies #[trigger] settled_world(after, ls2.leaked_sources.sun@, chunk_pos, q, LightType::Sun) by {
        crate::chunk::lemma_index_of_pos(q);
        assert(!(level > 0 && near_pos(p, q))) by {
            if level > 0 && near_pos(p, q) {
                assert(source_at(bp, b0, p));
                if q != p {
                    let d = choose|d: int| 0 <= d < 6 && #[trigger] crate::lighting::step(q, d) == p;
                    assert(source_at(bp, b0, crate::lighting::step(q, d)));
                }
            }
        }
        if index_of(q) == i && pos_in_beam(sb0, chunk_pos, q) {
            assert(q == p);
        } else if (index_of(q) < i && pos_in_beam(sb0, chunk_pos, q)) || crate::lighting::light_at(
            before,
            q,
            LightType::Sun,
        ) != crate::lighting::light_at(b0, q, LightType::Sun) {
            assert(settled_world(before, ls1.leaked_sources.sun@, chunk_pos, q, LightType::Sun));
        }
    }
}

/// What the sun beam pass did with a chunk.
#[derive(Debug, Clone, Copy, PartialEq, Eq, Structural)]
pub enum SunbeamStep {
    /// A beam escapes through the top and the chunk above is not loaded: the
    /// chunk waits for the chunk above, whose origin is given.
    WaitingForAbove(IVec3),
    /// The beams were extended and the chunk moves on to the biome pass.
    Extended,
    /// A column receives full sunlight but its stored beam does not touch the
    /// beam of this chunk: nothing was extended.
    NotAdjacent,
}

impl ChunkGenerationState {
    /// The sun beam pass: scans the columns of the chunk, then either waits
    /// for the chunk above (when a beam escapes through the top and that
    /// chunk is not loaded) or extends the sun beams of the columns that
    /// receive full sunlight.
    pub fn sunbeam_pass(&mut self, chunk_pos: IVec3, universe: &Universe, sun_beams: &mut crate::sun_beams::SunBeams) -> (r: SunbeamStep)
        requires
            old(self).wf(),
            old(self).chunk.is_some(),
            universe.wf(),
            crate::terrain::pos_safe(chunk_pos),
            crate::terrain::beams_safe(*old(sun_beams)),
        ensures
            final(self).wf(),
            final(self).chunk == old(self).chunk,
            final(self).pos == old(self).pos,
            final(self).priority == old(self).priority,
            final(self).current_block == old(self).current_block,
            crate::terrain::beams_safe(*final(sun_beams)),
            forall|c: int|
                0 <= c < CHUNK_AREA ==> #[trigger] column_scanned(
                    old(self).chunk.unwrap().blocks@,
                    chunk_pos.y,
                    final(self).blocks_lowest@,
                    final(self).blocks_beams@,
                    old(self).blocks_lowest@,
                    old(self).blocks_beams@,
                    c,
                ),
            ({
                let waits = (exists|c: int|
                    0 <= c < CHUNK_AREA && #[trigger] escaped(final(self).blocks_beams@, chunk_pos.y, c))
                    && universe.chunk_at(above_of(chunk_pos)).is_none();
                &&& waits ==> r == SunbeamStep::WaitingForAbove(above_of(chunk_pos))
                    && final(self).pass == GenerationPass::WaitingForSunbeams
                    && final(self).depends_on@ == old(self).depends_on@.push(above_of(chunk_pos))
                    && *final(sun_beams) == *old(sun_beams)
                &&& !waits && extension_ok(*final(self), chunk_pos, *universe, *old(sun_beams))
                    ==> r == SunbeamStep::Extended && final(self).pass == GenerationPass::Biome
                    && final(self).depends_on == old(self).depends_on
                    && extended_by(*old(sun_beams), *final(sun_beams), *final(self), chunk_pos, *universe)
                &&& !waits && !extension_ok(*final(self), chunk_pos, *universe, *old(sun_beams))
                    ==> r == SunbeamStep::NotAdjacent && final(self).pass == old(self).pass
                    && final(self).depends_on == old(self).depends_on && *final(sun_beams) == *old(sun_beams)
            }),
            beams_grown(*old(sun_beams), *final(sun_beams)),
    {
        let any_beam_escaped = self.compute_sun_columns(chunk_pos);
        match self.wait_for_above_if_needed(chunk_pos, any_beam_escaped, universe) {
            Some(above) => SunbeamStep::WaitingForAbove(above),
            None => {
                if self.extension_ok(chunk_pos, universe, sun_beams) {
                    let ghost sb0 = *sun_beams;
                    self.extend_column_beams(chunk_pos, universe, sun_beams);
                    proof {
                        lemma_extended_grows(sb0, *sun_beams, *self, chunk_pos, *universe);
                    }
                    SunbeamStep::Extended
                } else {
                    SunbeamStep::NotAdjacent
                }
            },
        }
    }
}


/// The grass block of the blueprints.
pub open spec fn grass_block(bp: Blueprints) -> Block {
    crate::block::block_from(bp.blocks@[bp.first_named("Grass"@)])
}

/// The dirt block of the blueprints.
pub open spec fn dirt_block(bp: Blueprints) -> Block {
    crate::block::block_from(bp.blocks@[bp.first_named("Dirt"@)])
}

/// `n` is `o` after the biome pass, given the beams `sb`.
pub open spec fn biome_done(o: ChunkGenerationState, n: ChunkGenerationState, sb: crate::sun_beams::SunBeams, bp: Blueprints) -> bool {
    &&& n.wf()
    &&& n.pass == GenerationPass::Lighting
    &&& n.chunk.is_some()
    &&& n.chunk.unwrap().blocks@ == biome_upto(o.chunk.unwrap().blocks@, sb, o.pos, grass_block(bp), dirt_block(bp), CHUNK_AREA as int)
    &&& crate::block::made_from(grass_block(bp), bp.blocks@[bp.first_named("Grass"@)])
    &&& crate::block::made_from(dirt_block(bp), bp.blocks@[bp.first_named("Dirt"@)])
    &&& 0 <= bp.first_named("Grass"@) < bp.blocks@.len()
    &&& 0 <= bp.first_named("Dirt"@) < bp.blocks@.len()
    &&& n.chunk.unwrap().version == o.chunk.unwrap().version
    &&& n.chunk.unwrap().properties == o.chunk.unwrap().properties
    &&& n.pos == o.pos
    &&& n.priority == o.priority
    &&& n.current_block == o.current_block
    &&& n.depends_on == o.depends_on
    &&& n.blocks_lowest == o.blocks_lowest
    &&& n.blocks_beams == o.blocks_beams
}

/// After the lighting pass of the chunk at `chunk_pos`, from blocks `b0` to
/// `b`: torch light has been passed on from every block that emits light and
/// every block whose torch light rose; sun light from every block in a beam of
/// `sb` and every block whose sun light changed, away from the blocks that
/// emit light; light leaving the chunk is among the leaked sources of `ls`.
pub open spec fn lit_settled(
    b0: Seq<Block>,
    b: Seq<Block>,
    ls: crate::terrain::LightSources,
    sb: crate::sun_beams::SunBeams,
    chunk_pos: IVec3,
    bp: Blueprints,
) -> bool {
    &&& forall|q: IVec3|
        in_chunk(q) && (source_at(bp, b0, q) || crate::lighting::light_at(b, q, LightType::Torch)
            != crate::lighting::light_at(b0, q, LightType::Torch)) ==> #[trigger] settled_world(
            b,
            ls.leaked_sources.torch@,
            chunk_pos,
            q,
            LightType::Torch,
        )
    &&& forall|q: IVec3|
        in_chunk(q) && !touches_source(bp, b0, q) && (pos_in_beam(sb, chunk_pos, q) || crate::lighting::light_at(
            b,
            q,
            LightType::Sun,
        ) != crate::lighting::light_at(b0, q, LightType::Sun)) ==> #[trigger] settled_world(
            b,
            ls.leaked_sources.sun@,
            chunk_pos,
            q,
            LightType::Sun,
        )
}

proof fn lemma_lit_settled_grow(
    b0: Seq<Block>,
    b: Seq<Block>,
    ls1: crate::terrain::LightSources,
    ls2: crate::terrain::LightSources,
    sb: crate::sun_beams::SunBeams,
    chunk_pos: IVec3,
    bp: Blueprints,
)
    requires
        b.len() == CHUNK_VOLUME,
        crate::terrain::leaked_appended(ls1, ls2),
        lit_settled(b0, b, ls1, sb, chunk_pos, bp),
    ensures
        lit_settled(b0, b, ls2, sb, chunk_pos, bp),
{
    assert forall|q: IVec3|
        in_chunk(q) && (source_at(bp, b0, q) || crate::lighting::light_at(b, q, LightType::Torch)
            != crate::lighting::light_at(b0, q, LightType::Torch)) implies #[trigger] settled_world(
            b,
            ls2.leaked_sources.torch@,
            chunk_pos,
            q,
            LightType::Torch,
        ) by {
        lemma_settled_world_keep(b, b, ls1.leaked_sources.torch@, ls2.leaked_sources.torch@, chunk_pos, q, LightType::Torch);
    }
    assert forall|q: IVec3|
        in_chunk(q) && !touches_source(bp, b0, q) && (pos_in_beam(sb, chunk_pos, q) || crate::lighting::light_at(
            b,
            q,
            LightType::Sun,
        ) != crate::lighting::light_at(b0, q, LightType::Sun)) implies #[trigger] settled_world(
            b,
            ls2.leaked_sources.sun@,
            chunk_pos,
            q,
            LightType::Sun,
        ) by {
        lemma_settled_world_keep(b, b, ls1.leaked_sources.sun@, ls2.leaked_sources.sun@, chunk_pos, q, LightType::Sun);
    }
}


/// `n` is `o` after the lighting pass, given the beams `sb`.
pub open spec fn lighting_done(o: ChunkGenerationState, n: ChunkGenerationState, sb: crate::sun_beams::SunBeams, bp: Blueprints) -> bool {
    &&& n.wf()
    &&& n.pass == GenerationPass::Done
    &&& n.chunk.is_some()
    &&& forall|i: int|
        0 <= i < CHUNK_VOLUME ==> #[trigger] lit_block(
            o.chunk.unwrap().blocks@[i],
            n.chunk.unwrap().blocks@[i],
            source_level(bp, o.chunk.unwrap().blocks@[i]),
            pos_in_beam(sb, o.pos, pos_of(i)),
        )
    &&& n.chunk.unwrap().version == o.chunk.unwrap().version
    &&& n.chunk.unwrap().properties == o.chunk.unwrap().properties
    &&& n.pos == o.pos
    &&& n.priority == o.priority
    &&& n.current_block == o.current_block
    &&& n.depends_on == o.depends_on
    &&& n.blocks_lowest == o.blocks_lowest
    &&& n.blocks_beams == o.blocks_beams
}

/// The burying of a chunk depends on the beams only through the beam of
/// each column.
proof fn lemma_biome_same_beams(
    blocks: Seq<Block>,
    sb1: crate::sun_beams::SunBeams,
    sb2: crate::sun_beams::SunBeams,
    chunk_pos: IVec3,
    grass: Block,
    dirt: Block,
    n: int,
)
    requires
        forall|xz: IVec2| #[trigger] sb1.beam_at(xz) == sb2.beam_at(xz),
    ensures
        biome_upto(blocks, sb1, chunk_pos, grass, dirt, n) == biome_upto(blocks, sb2, chunk_pos, grass, dirt, n),
    decreases n,
{
    if n > 0 {
        lemma_biome_same_beams(blocks, sb1, sb2, chunk_pos, grass, dirt, n - 1);
        assert(under_beam(sb1, chunk_pos, n - 1) == under_beam(sb2, chunk_pos, n - 1));
    }
}

impl ChunkGenerationRequest {
    /// Every requested chunk lies far from the integer limits.
    pub open spec fn positions_safe(&self) -> bool {
        forall|k: u128| #[trigger] self.requested@.contains_key(k) ==> crate::terrain::pos_safe(self.requested@[k].pos)
    }

    /// Runs the biome pass on the chunks waiting for it, each costing a
    /// chunk's volume of the budget `max`, stopping once `processed` has
    /// reached it. No beam changes.
    #[verifier::rlimit(50)]
    #[verifier::spinoff_prover]
    pub fn run_biome_passes(
        &mut self,
        sun_beams: &mut crate::sun_beams::SunBeams,
        bp: &Blueprints,
        processed: &mut usize,
        max: usize,
    )
        requires
            old(self).wf(),
            old(self).positions_safe(),
            crate::terrain::beams_safe(*old(sun_beams)),
            bp.wf(),
            bp.has_named("Grass"@),
            bp.has_named("Dirt"@),
            max + CHUNK_VOLUME <= usize::MAX,
        ensures
            final(self).wf(),
            final(self).positions_safe(),
            final(self).requested@.dom() == old(self).requested@.dom(),
            forall|k: u128|
                #[trigger] final(self).requested@.contains_key(k) ==> final(self).requested@[k] == old(
                    self,
                ).requested@[k] || (old(self).requested@[k].pass == GenerationPass::Biome && biome_done(
                    old(self).requested@[k],
                    final(self).requested@[k],
                    *old(sun_beams),
                    *bp,
                )),
            forall|k: u128|
                #[trigger] final(self).requested@.contains_key(k) && final(self).requested@[k].pass
                    == GenerationPass::Biome ==> *final(processed) >= max,
            *final(processed) >= *old(processed),
            *old(processed) >= max ==> *final(processed) == *old(processed),
            crate::terrain::beams_safe(*final(sun_beams)),
            forall|xz: IVec2| #[trigger] final(sun_beams).beam_at(xz) == old(sun_beams).beam_at(xz),
    {
        let keys = self.keys_for_pass(GenerationPass::Biome);
        let ghost r0 = self.requested@;
        let ghost sb0 = *sun_beams;
        let mut spent: usize = *processed;
        let mut i: usize = 0;
        while i < keys.len() && spent < max
            invariant
                i <= keys@.len(),
                max + CHUNK_VOLUME <= usize::MAX,
                spent >= *old(processed),
                *old(processed) >= max ==> spent == *old(processed),
                bp.wf(),
                bp.has_named("Grass"@),
                bp.has_named("Dirt"@),
                forall|k: u128| #[trigger] keys@.contains(k) <==> r0.contains_key(k) && r0[k].pass == GenerationPass::Biome,
                self.wf(),
                self.positions_safe(),
                self.requested@.dom() == r0.dom(),
                forall|k: u128|
                    #[trigger] self.requested@.contains_key(k) ==> self.requested@[k] == r0[k] || (r0[k].pass
                        == GenerationPass::Biome && biome_done(r0[k], self.requested@[k], sb0, *bp)),
                forall|j: int| 0 <= j < i ==> #[trigger] self.requested@[keys@[j]].pass != GenerationPass::Biome,
                crate::terrain::beams_safe(*sun_beams),
                forall|xz: IVec2| #[trigger] sun_beams.beam_at(xz) == sb0.beam_at(xz),
            decreases keys.len() - i,
        {
            let k = keys[i];
            proof {
                assert(keys@.contains(k)) by {
                    assert(keys@[i as int] == k);
                }
            }
            let ghost before = self.requested@;
            match self.requested.remove(&k) {
                Some(mut st) => {
                    if st.pass == GenerationPass::Biome {
                        spent = spent + CHUNK_VOLUME;
                        let pos = st.pos;
                        let ghost sb1 = *sun_beams;
                        st.biome_pass(pos, sun_beams, bp);
                        proof {
                            lemma_biome_same_beams(r0[k].chunk.unwrap().blocks@, sb1, sb0, pos, grass_block(*bp), dirt_block(*bp), CHUNK_AREA as int);
                        }
                    }
                    self.requested.insert(k, st);
                },
                None => {
                    proof {
                        assert(false);
                    }
                },
            }
            proof {
                assert(self.requested@.dom() =~= r0.dom());
                assert forall|j: int| 0 <= j < i + 1 implies #[trigger] self.requested@[keys@[j]].pass
                    != GenerationPass::Biome by {
                    if keys@[j] != k {
                        assert(before[keys@[j]].pass != GenerationPass::Biome);
                    }
                }
            }
            i = i + 1;
        }
        proof {
            if spent < max {
                assert forall|k: u128|
                    #[trigger] self.requested@.contains_key(k) && self.requested@[k].pass == GenerationPass::Biome
                        implies false by {
                    assert(r0[k].pass == GenerationPass::Biome);
                    assert(keys@.contains(k));
                    let j = choose|j: int| 0 <= j < keys@.len() && keys@[j] == k;
                    assert(self.requested@[keys@[j]].pass != GenerationPass::Biome);
                }
            }
        }
        *processed = spent;
    }
}


impl ChunkGenerationRequest {
    /// Runs the lighting pass on the chunks waiting for it, each costing a
    /// chunk's volume of the budget `max`, stopping once `processed` has
    /// reached it. What leaks out of the chunks is appended to the leaked
    /// sources; no beam changes.
    pub fn run_lighting_passes(
        &mut self,
        sun_beams: &mut crate::sun_beams::SunBeams,
        bp: &Blueprints,
        light_sources: &mut crate::terrain::LightSources,
        processed: &mut usize,
        max: usize,
    )
        requires
            old(self).wf(),
            old(self).positions_safe(),
            crate::terrain::beams_safe(*old(sun_beams)),
            bp.wf(),
            forall|k: u128|
                #[trigger] old(self).requested@.contains_key(k) && old(self).requested@[k].pass
                    == GenerationPass::Lighting ==> chunk_ids_known(old(self).requested@[k].chunk.unwrap().blocks@, *bp),
            old(light_sources).wf(),
            max + CHUNK_VOLUME <= usize::MAX,
        ensures
            final(self).wf(),
            final(self).positions_safe(),
            final(self).requested@.dom() == old(self).requested@.dom(),
            forall|k: u128|
                #[trigger] final(self).requested@.contains_key(k) ==> final(self).requested@[k] == old(
                    self,
                ).requested@[k] || (old(self).requested@[k].pass == GenerationPass::Lighting && lighting_done(
                    old(self).requested@[k],
                    final(self).requested@[k],
                    *old(sun_beams),
                    *bp,
                )),
            forall|k: u128|
                #[trigger] final(self).requested@.contains_key(k) && final(self).requested@[k].pass
                    == GenerationPass::Lighting ==> *final(processed) >= max,
            *final(processed) >= *old(processed),
            *old(processed) >= max ==> *final(processed) == *old(processed),
            crate::terrain::beams_safe(*final(sun_beams)),
            forall|xz: IVec2| #[trigger] final(sun_beams).beam_at(xz) == old(sun_beams).beam_at(xz),
            final(light_sources).wf(),
            crate::terrain::leaked_appended(*old(light_sources), *final(light_sources)),
            forall|k: u128|
                #[trigger] final(self).requested@.contains_key(k) && final(self).requested@[k] != old(self).requested@[k]
                    ==> lit_settled(
                    old(self).requested@[k].chunk.unwrap().blocks@,
                    final(self).requested@[k].chunk.unwrap().blocks@,
                    *final(light_sources),
                    *old(sun_beams),
                    old(self).requested@[k].pos,
                    *bp,
                ),
    {
        let keys = self.keys_for_pass(GenerationPass::Lighting);
        let ghost r0 = self.requested@;
        let ghost sb0 = *sun_beams;
        let ghost ls0 = *light_sources;
        proof {
            assert(ls0.leaked_sources.sun@.subrange(0, ls0.leaked_sources.sun@.len() as int) =~= ls0.leaked_sources.sun@);
            assert(ls0.leaked_sources.torch@.subrange(0, ls0.leaked_sources.torch@.len() as int) =~= ls0.leaked_sources.torch@);
        }
        let mut spent: usize = *processed;
        let mut i: usize = 0;
        while i < keys.len() && spent < max
            invariant
                i <= keys@.len(),
                max + CHUNK_VOLUME <= usize::MAX,
                spent >= *old(processed),
                *old(processed) >= max ==> spent == *old(processed),
                bp.wf(),
                forall|k: u128|
                    #[trigger] r0.contains_key(k) && r0[k].pass == GenerationPass::Lighting ==> chunk_ids_known(
                        r0[k].chunk.unwrap().blocks@,
                        *bp,
                    ),
                forall|k: u128|
                    #[trigger] keys@.contains(k) <==> r0.contains_key(k) && r0[k].pass == GenerationPass::Lighting,
                self.wf(),
                self.positions_safe(),
                self.requested@.dom() == r0.dom(),
                forall|k: u128|
                    #[trigger] self.requested@.contains_key(k) ==> self.requested@[k] == r0[k] || (r0[k].pass
                        == GenerationPass::Lighting && lighting_done(r0[k], self.requested@[k], sb0, *bp)),
                forall|j: int| 0 <= j < i ==> #[trigger] self.requested@[keys@[j]].pass != GenerationPass::Lighting,
                crate::terrain::beams_safe(*sun_beams),
                forall|xz: IVec2| #[trigger] sun_beams.beam_at(xz) == sb0.beam_at(xz),
                light_sources.wf(),
                crate::terrain::leaked_appended(ls0, *light_sources),
                forall|kk: u128|
                    #[trigger] self.requested@.contains_key(kk) && self.requested@[kk] != r0[kk] ==> lit_settled(
                        r0[kk].chunk.unwrap().blocks@,
                        self.requested@[kk].chunk.unwrap().blocks@,
                        *light_sources,
                        sb0,
                        r0[kk].pos,
                        *bp,
                    ),
            decreases keys.len() - i,
        {
            let k = keys[i];
            proof {
                assert(keys@.contains(k)) by {
                    assert(keys@[i as int] == k);
                }
            }
            let ghost before = self.requested@;
            let ghost ls_before = *light_sources;
            match self.requested.remove(&k) {
                Some(mut st) => {
                    if st.pass == GenerationPass::Lighting {
                        spent = spent + CHUNK_VOLUME;
                        let pos = st.pos;
                        let ghost sb1 = *sun_beams;
                        let ghost ls1 = *light_sources;
                        let ghost st0 = st;
                        proof {
                            assert(st == r0[k]);
                        }
                        st.lighting_pass(pos, sun_beams, bp, light_sources);
                        proof {
                            lemma_leaked_appended_trans(ls0, ls1, *light_sources);
                            assert forall|i: int|
                                0 <= i < CHUNK_VOLUME implies #[trigger] lit_block(
                                    st0.chunk.unwrap().blocks@[i],
                                    st.chunk.unwrap().blocks@[i],
                                    source_level(*bp, st0.chunk.unwrap().blocks@[i]),
                                    pos_in_beam(sb0, pos, pos_of(i)),
                                ) by {
                                assert(lit_block(
                                    st0.chunk.unwrap().blocks@[i],
                                    st.chunk.unwrap().blocks@[i],
                                    source_level(*bp, st0.chunk.unwrap().blocks@[i]),
                                    pos_in_beam(sb1, pos, pos_of(i)),
                                ));
                                assert(pos_in_beam(sb0, pos, pos_of(i)) == pos_in_beam(sb1, pos, pos_of(i)));
                            }
                            assert(lighting_done(r0[k], st, sb0, *bp));
                            assert(lit_settled(st0.chunk.unwrap().blocks@, st.chunk.unwrap().blocks@, *light_sources, sb0, pos, *bp)) by {
                                assert forall|q: IVec3| #[trigger] pos_in_beam(sb0, pos, q) == pos_in_beam(sb1, pos, q) by {}
                            }
                        }
                    }
                    self.requested.insert(k, st);
                },
                None => {
                    proof {
                        assert(false);
                    }
                },
            }
            proof {
                assert(self.requested@.dom() =~= r0.dom());
                assert forall|kk: u128|
                    #[trigger] self.requested@.contains_key(kk) && self.requested@[kk] != r0[kk] implies lit_settled(
                        r0[kk].chunk.unwrap().blocks@,
                        self.requested@[kk].chunk.unwrap().blocks@,
                        *light_sources,
                        sb0,
                        r0[kk].pos,
                        *bp,
                    ) by {
                    if kk != k {
                        assert(self.requested@[kk] == before[kk]);
                        assert(lit_settled(
                            r0[kk].chunk.unwrap().blocks@,
                            before[kk].chunk.unwrap().blocks@,
                            ls_before,
                            sb0,
                            r0[kk].pos,
                            *bp,
                        ));
                        assert(lighting_done(r0[kk], before[kk], sb0, *bp));
                        lemma_lit_settled_grow(
                            r0[kk].chunk.unwrap().blocks@,
                            before[kk].chunk.unwrap().blocks@,
                            ls_before,
                            *light_sources,
                            sb0,
                            r0[kk].pos,
                            *bp,
                        );
                    }
                }
                assert forall|j: int| 0 <= j < i + 1 implies #[trigger] self.requested@[keys@[j]].pass
                    != GenerationPass::Lighting by {
                    if keys@[j] != k {
                        assert(before[keys@[j]].pass != GenerationPass::Lighting);
                    }
                }
            }
            i = i + 1;
        }
        proof {
            if spent < max {
                assert forall|k: u128|
                    #[trigger] self.requested@.contains_key(k) && self.requested@[k].pass == GenerationPass::Lighting
                        implies false by {
                    assert(r0[k].pass == GenerationPass::Lighting);
                    assert(keys@.contains(k));
                    let j = choose|j: int| 0 <= j < keys@.len() && keys@[j] == k;
                    assert(self.requested@[keys@[j]].pass != GenerationPass::Lighting);
                }
            }
        }
        *processed = spent;
    }
}


/// `n` is `o` after the sun beam pass: the same chunk, moved on to the
/// biome pass, still at the sun beam pass, or waiting for the chunk above
/// (which is not loaded in `u`) and then depending on it as well; its
/// priority may only have dropped.
pub open spec fn sunbeam_stepped(o: ChunkGenerationState, n: ChunkGenerationState, u: Universe) -> bool {
    &&& n.wf()
    &&& n.chunk == o.chunk
    &&& n.pos == o.pos
    &&& n.current_block == o.current_block
    &&& n.priority <= o.priority
    &&& (n.pass == GenerationPass::Sunbeams || n.pass == GenerationPass::WaitingForSunbeams || n.pass
        == GenerationPass::Biome)
    &&& n.pass == GenerationPass::WaitingForSunbeams ==> n.depends_on@ == o.depends_on@.push(above_of(o.pos))
        && u.chunk_at(above_of(o.pos)).is_none()
    &&& n.pass != GenerationPass::WaitingForSunbeams ==> n.depends_on == o.depends_on
}

/// `n` is `o` with at most a lower priority.
pub open spec fn reprioritized(o: ChunkGenerationState, n: ChunkGenerationState) -> bool {
    &&& n.priority <= o.priority
    &&& n == ChunkGenerationState { priority: n.priority, ..o }
}

impl ChunkGenerationRequest {
    /// Runs the sun beam pass on at most ten chunks waiting for it, each
    /// costing a chunk's volume of the budget `max`, stopping once
    /// `processed` has reached it. The chunk above every chunk that starts
    /// waiting for it is then requested with priority zero (when it lies far
    /// enough from the integer limits). Sun beams only grow.
    pub fn run_sunbeam_passes(
        &mut self,
        universe: &Universe,
        sun_beams: &mut crate::sun_beams::SunBeams,
        processed: &mut usize,
        max: usize,
    )
        requires
            old(self).wf(),
            old(self).positions_safe(),
            universe.wf(),
            crate::terrain::beams_safe(*old(sun_beams)),
            max + 10 * CHUNK_VOLUME <= usize::MAX,
        ensures
            final(self).wf(),
            final(self).positions_safe(),
            forall|k: u128|
                #[trigger] old(self).requested@.contains_key(k) ==> final(self).requested@.contains_key(k) && (
                reprioritized(old(self).requested@[k], final(self).requested@[k]) || (old(self).requested@[k].pass
                    == GenerationPass::Sunbeams && sunbeam_stepped(
                    old(self).requested@[k],
                    final(self).requested@[k],
                    *universe,
                ))),
            forall|k: u128|
                #[trigger] old(self).requested@.contains_key(k) && old(self).requested@[k].pass
                    == GenerationPass::Sunbeams && final(self).requested@[k].pass == GenerationPass::WaitingForSunbeams
                    && crate::terrain::pos_safe(above_of(old(self).requested@[k].pos))
                    ==> final(self).requested@.contains_key(pos_key(above_of(old(self).requested@[k].pos))),
            forall|k: u128|
                #[trigger] final(self).requested@.contains_key(k) && !old(self).requested@.contains_key(k)
                    ==> final(self).requested@[k].pass == GenerationPass::Blocks && final(self).requested@[k].priority
                    == 0 && final(self).requested@[k].chunk.is_none(),
            *final(processed) >= *old(processed),
            *final(processed) <= *old(processed) + 10 * CHUNK_VOLUME,
            *old(processed) >= max ==> *final(processed) == *old(processed),
            crate::terrain::beams_safe(*final(sun_beams)),
            beams_grown(*old(sun_beams), *final(sun_beams)),
            (*final(processed) - *old(processed)) % (CHUNK_VOLUME as int) == 0,
            *final(processed) == *old(processed) + 10 * CHUNK_VOLUME || *final(processed) >= max || forall|k: u128|
                #[trigger] final(self).requested@.contains_key(k) ==> final(self).requested@[k].pass
                    != GenerationPass::Sunbeams,
            exists|
                ms: Seq<Map<u128, ChunkGenerationState>>,
                ks: Seq<u128>,
                sbs: Seq<crate::sun_beams::SunBeams>,
            |
                #[trigger] sunbeam_chain(ms, ks, sbs, *universe) && ms[0] == old(self).requested@ && sbs[0] == *old(
                    sun_beams,
                ) && sbs.last() == *final(sun_beams) && *final(processed) - *old(processed) == ks.len()
                    * CHUNK_VOLUME && forall|k: u128|
                    #[trigger] ms.last().contains_key(k) ==> final(self).requested@.contains_key(k) && reprioritized(
                        ms.last()[k],
                        final(self).requested@[k],
                    ),
    {
        let ghost r0 = self.requested@;
        let ghost sb0 = *sun_beams;
        let mut spent: usize = *processed;
        let mut wanted: Vec<IVec3> = Vec::new();
        let ghost mut ms: Seq<Map<u128, ChunkGenerationState>> = seq![r0];
        let ghost mut ks: Seq<u128> = Seq::empty();
        let ghost mut sbs: Seq<crate::sun_beams::SunBeams> = seq![sb0];
        let mut n: usize = 0;
        while n < 10 && spent < max
            invariant
                n <= 10,
                max + 10 * CHUNK_VOLUME <= usize::MAX,
                spent == *old(processed) + n * CHUNK_VOLUME,
                *old(processed) >= max ==> spent == *old(processed),
                universe.wf(),
                self.wf(),
                self.positions_safe(),
                self.requested@.dom() == r0.dom(),
                forall|k: u128|
                    #[trigger] self.requested@.contains_key(k) ==> self.requested@[k] == r0[k] || (r0[k].pass
                        == GenerationPass::Sunbeams && sunbeam_stepped(r0[k], self.requested@[k], *universe)),
                forall|k: u128|
                    #[trigger] self.requested@.contains_key(k) && r0[k].pass == GenerationPass::Sunbeams
                        && self.requested@[k].pass == GenerationPass::WaitingForSunbeams ==> wanted@.contains(
                        above_of(r0[k].pos),
                    ),
                crate::terrain::beams_safe(*sun_beams),
                sb0 == *old(sun_beams),
                beams_grown(sb0, *sun_beams),
                sunbeam_chain(ms, ks, sbs, *universe),
                ks.len() == n,
                ms[0] == r0,
                sbs[0] == sb0,
                ms.last() == self.requested@,
                sbs.last() == *sun_beams,
            ensures
                n == 10 || spent >= max || forall|k: u128|
                    #[trigger] self.requested@.contains_key(k) ==> self.requested@[k].pass != GenerationPass::Sunbeams,
            decreases 10 - n,
        {
            let keys = self.keys_for_pass(GenerationPass::Sunbeams);
            if keys.len() == 0 {
                proof {
                    assert forall|k: u128| #[trigger] self.requested@.contains_key(k) implies self.requested@[k].pass
                        != GenerationPass::Sunbeams by {
                        if self.requested@[k].pass == GenerationPass::Sunbeams {
                            assert(keys@.contains(k));
                        }
                    }
                }
                break;
            }
            let k = keys[0];
            proof {
                assert(keys@.contains(k)) by {
                    assert(keys@[0] == k);
                }
            }
            spent = spent + CHUNK_VOLUME;
            let ghost before = self.requested@;
            let ghost w0 = wanted@;
            let ghost sb_before = *sun_beams;
            match self.requested.remove(&k) {
                Some(mut st) => {
                    let pos = st.pos;
                    match st.sunbeam_pass(pos, universe, sun_beams) {
                        SunbeamStep::WaitingForAbove(above) => {
                            wanted.push(above);
                        },
                        _ => {},
                    }
                    proof {
                        assert(before[k].pass == GenerationPass::Sunbeams);
                        if before[k] != r0[k] {
                            assert(sunbeam_stepped(r0[k], before[k], *universe));
                        }
                        assert(sunbeam_stepped(r0[k], st, *universe));
                        lemma_grown_trans(sb0, sb_before, *sun_beams);
                        assert(sunbeam_done(before[k], st, *universe, sb_before, *sun_beams));
                    }
                    self.requested.insert(k, st);
                    proof {
                        let ms1 = ms.push(self.requested@);
                        let ks1 = ks.push(k);
                        let sbs1 = sbs.push(*sun_beams);
                        assert(self.requested@ == before.insert(k, st));
                        assert(sunbeam_link(before, self.requested@, k, sb_before, *sun_beams, *universe));
                        assert forall|i: int| 0 <= i < ks1.len() implies #[trigger] sunbeam_link(
                            ms1[i],
                            ms1[i + 1],
                            ks1[i],
                            sbs1[i],
                            sbs1[i + 1],
                            *universe,
                        ) by {
                            if i < ks.len() {
                                assert(ms1[i] == ms[i] && ms1[i + 1] == ms[i + 1] && ks1[i] == ks[i] && sbs1[i] == sbs[i]
                                    && sbs1[i + 1] == sbs[i + 1]);
                            } else {
                                assert(ms1[i] == before && ms1[i + 1] == self.requested@ && ks1[i] == k && sbs1[i]
                                    == sb_before && sbs1[i + 1] == *sun_beams);
                            }
                        }
                        ms = ms1;
                        ks = ks1;
                        sbs = sbs1;
                    }
                },
                None => {
                    proof {
                        assert(false);
                    }
                },
            }
            proof {
                assert(self.requested@.dom() =~= r0.dom());
                assert forall|kk: u128|
                    #[trigger] self.requested@.contains_key(kk) && r0[kk].pass == GenerationPass::Sunbeams
                        && self.requested@[kk].pass == GenerationPass::WaitingForSunbeams implies wanted@.contains(
                        above_of(r0[kk].pos),
                    ) by {
                    if kk != k {
                        assert(before[kk] == self.requested@[kk]);
                        assert(w0.contains(above_of(r0[kk].pos)));
                        let j = choose|j: int| 0 <= j < w0.len() && w0[j] == above_of(r0[kk].pos);
                        assert(wanted@[j] == w0[j]);
                    } else {
                        assert(wanted@[wanted@.len() - 1] == above_of(r0[kk].pos));
                    }
                }
            }
            n = n + 1;
        }
        let ghost r1 = self.requested@;
        let ghost no_sun = forall|k: u128| #[trigger] r1.contains_key(k) ==> r1[k].pass != GenerationPass::Sunbeams;
        proof {
            assert(n == 10 || spent >= max || no_sun);
            assert(spent == *old(processed) + n * CHUNK_VOLUME);
            let op = *old(processed);
            assert((spent - op) % (CHUNK_VOLUME as int) == 0) by (nonlinear_arith)
                requires
                    spent == op + n * CHUNK_VOLUME,
            ;
        }
        let mut j: usize = 0;
        while j < wanted.len()
            invariant
                j <= wanted@.len(),
                self.wf(),
                self.positions_safe(),
                r1.dom() == r0.dom(),
                forall|k: u128| #[trigger] r1.contains_key(k) ==> r1[k] == r0[k] || (r0[k].pass
                    == GenerationPass::Sunbeams && sunbeam_stepped(r0[k], r1[k], *universe)),
                forall|k: u128|
                    #[trigger] r1.contains_key(k) ==> self.requested@.contains_key(k) && reprioritized(r1[k], self.requested@[k]),
                forall|jj: int|
                    0 <= jj < j && crate::terrain::pos_safe(wanted@[jj]) ==> #[trigger] self.requested@.contains_key(pos_key(wanted@[jj])),
                forall|k: u128|
                    #[trigger] self.requested@.contains_key(k) && !r1.contains_key(k)
                        ==> self.requested@[k].pass == GenerationPass::Blocks && self.requested@[k].priority
                        == 0 && self.requested@[k].chunk.is_none(),
                n == 10 || spent >= max || no_sun,
                no_sun == forall|k: u128| #[trigger] r1.contains_key(k) ==> r1[k].pass != GenerationPass::Sunbeams,
                (spent - *old(processed)) % (CHUNK_VOLUME as int) == 0,
                spent == *old(processed) + n * CHUNK_VOLUME,
            decreases wanted.len() - j,
        {
            let a = wanted[j];
            if crate::terrain::is_pos_safe(a) {
                let ghost before = self.requested@;
                self.insert_priority(a, 0);
                proof {
                    assert forall|k: u128| #[trigger] self.requested@.contains_key(k) implies crate::terrain::pos_safe(
                        self.requested@[k].pos,
                    ) by {
                        if k != pos_key(a) {
                            assert(before.contains_key(k));
                        }
                    }
                    assert forall|k: u128|
                        #[trigger] r1.contains_key(k) implies self.requested@.contains_key(k) && reprioritized(
                            r1[k],
                            self.requested@[k],
                        ) by {
                        assert(before.contains_key(k));
                        assert(reprioritized(r1[k], before[k]));
                        if k == pos_key(a) {
                            assert(reprioritized(before[k], self.requested@[k]));
                        }
                    }
                    assert forall|jj: int|
                        0 <= jj < j + 1 && crate::terrain::pos_safe(wanted@[jj]) implies #[trigger] self.requested@.contains_key(
                        pos_key(wanted@[jj]),
                    ) by {
                        if jj < j {
                            assert(before.contains_key(pos_key(wanted@[jj])));
                        }
                    }
                }
            }
            j = j + 1;
        }
        proof {
            assert forall|k: u128|
                #[trigger] r0.contains_key(k) && r0[k].pass == GenerationPass::Sunbeams
                    && self.requested@[k].pass == GenerationPass::WaitingForSunbeams
                    && crate::terrain::pos_safe(above_of(r0[k].pos)) implies self.requested@.contains_key(
                pos_key(above_of(r0[k].pos)),
            ) by {
                assert(r1[k].pass == GenerationPass::WaitingForSunbeams);
                assert(wanted@.contains(above_of(r0[k].pos)));
                let jj = choose|jj: int| 0 <= jj < wanted@.len() && wanted@[jj] == above_of(r0[k].pos);
                assert(self.requested@.contains_key(pos_key(wanted@[jj])));
            }
            assert forall|k: u128|
                #[trigger] r0.contains_key(k) implies self.requested@.contains_key(k) && (reprioritized(
                    r0[k],
                    self.requested@[k],
                ) || (r0[k].pass == GenerationPass::Sunbeams && sunbeam_stepped(r0[k], self.requested@[k], *universe))) by {
                assert(r1.contains_key(k));
                assert(reprioritized(r1[k], self.requested@[k]));
            }
        }
        proof {
            if no_sun {
                assert forall|k: u128| #[trigger] self.requested@.contains_key(k) implies self.requested@[k].pass
                    != GenerationPass::Sunbeams by {
                    if r1.contains_key(k) {
                        assert(reprioritized(r1[k], self.requested@[k]));
                    }
                }
            }
        }
        proof {
            assert(sunbeam_chain(ms, ks, sbs, *universe) && ms[0] == r0 && sbs[0] == sb0 && sbs.last() == *sun_beams
                && spent - *old(processed) == ks.len() * CHUNK_VOLUME && forall|k: u128|
                #[trigger] ms.last().contains_key(k) ==> self.requested@.contains_key(k) && reprioritized(
                    ms.last()[k],
                    self.requested@[k],
                ));
        }
        *processed = spent;
    }
}


/// `n` is `o` after its sun beam pass, given the universe `u`, the beams
/// going from `sa` to `sb`: its columns are scanned; it waits for the chunk
/// above when a beam escapes through its top and that chunk is not loaded;
/// otherwise it extends the beams and moves on to the biome pass when its
/// beams touch the stored ones, and is left as it was (beams too) when they
/// do not.
pub open spec fn sunbeam_done(
    o: ChunkGenerationState,
    n: ChunkGenerationState,
    u: Universe,
    sa: crate::sun_beams::SunBeams,
    sb: crate::sun_beams::SunBeams,
) -> bool {
    let chunk_pos = o.pos;
    let waits = (exists|c: int| 0 <= c < CHUNK_AREA && #[trigger] escaped(n.blocks_beams@, chunk_pos.y, c))
        && u.chunk_at(above_of(chunk_pos)).is_none();
    &&& n.wf()
    &&& n.chunk == o.chunk
    &&& n.pos == o.pos
    &&& n.priority == o.priority
    &&& n.current_block == o.current_block
    &&& crate::terrain::beams_safe(sb)
    &&& forall|c: int|
        0 <= c < CHUNK_AREA ==> #[trigger] column_scanned(
            o.chunk.unwrap().blocks@,
            chunk_pos.y,
            n.blocks_lowest@,
            n.blocks_beams@,
            o.blocks_lowest@,
            o.blocks_beams@,
            c,
        )
    &&& waits ==> n.pass == GenerationPass::WaitingForSunbeams && n.depends_on@ == o.depends_on@.push(
        above_of(chunk_pos),
    ) && sb == sa
    &&& !waits && extension_ok(n, chunk_pos, u, sa) ==> n.pass == GenerationPass::Biome && n.depends_on
        == o.depends_on && extended_by(sa, sb, n, chunk_pos, u)
    &&& !waits && !extension_ok(n, chunk_pos, u, sa) ==> n.pass == o.pass && n.depends_on == o.depends_on && sb
        == sa
    &&& beams_grown(sa, sb)
}

/// One sun beam pass on the request of key `k`: from the requests `a` to `b`
/// and the beams `sa` to `sb`.
pub open spec fn sunbeam_link(
    a: Map<u128, ChunkGenerationState>,
    b: Map<u128, ChunkGenerationState>,
    k: u128,
    sa: crate::sun_beams::SunBeams,
    sb: crate::sun_beams::SunBeams,
    u: Universe,
) -> bool {
    &&& a.contains_key(k)
    &&& a[k].pass == GenerationPass::Sunbeams
    &&& b == a.insert(k, b[k])
    &&& sunbeam_done(a[k], b[k], u, sa, sb)
}

/// Sun beam passes in order on the requests of keys `ks`, through the request
/// maps `ms` and the beams `sbs` between them.
pub open spec fn sunbeam_chain(
    ms: Seq<Map<u128, ChunkGenerationState>>,
    ks: Seq<u128>,
    sbs: Seq<crate::sun_beams::SunBeams>,
    u: Universe,
) -> bool {
    &&& ms.len() == ks.len() + 1
    &&& sbs.len() == ks.len() + 1
    &&& forall|i: int| 0 <= i < ks.len() ==> #[trigger] sunbeam_link(ms[i], ms[i + 1], ks[i], sbs[i], sbs[i + 1], u)
}

/// World position of the block at index `i` of the chunk at `chunk_pos`.
pub open spec fn world_of(chunk_pos: IVec3, i: int) -> IVec3 {
    IVec3 {
        x: (chunk_pos.x + pos_of(i).x) as i32,
        y: (chunk_pos.y + pos_of(i).y) as i32,
        z: (chunk_pos.z + pos_of(i).z) as i32,
    }
}

/// `n` is `o` after some of its blocks were generated by `generator`: the
/// blocks from `o.current_block` up to `n.current_block` are what the
/// generator gave for their world positions, the others are unchanged, and
/// the chunk moves on to the sun beam pass once all of them are generated.
pub open spec fn blocks_generated<F: Fn(IVec3) -> Block>(o: ChunkGenerationState, n: ChunkGenerationState, generator: F) -> bool {
    &&& n.wf()
    &&& n.chunk.is_some()
    &&& o.current_block <= n.current_block <= CHUNK_VOLUME
    &&& forall|i: int|
        o.current_block <= i < n.current_block ==> call_ensures(
            generator,
            (world_of(o.pos, i),),
            #[trigger] n.chunk.unwrap().blocks@[i],
        )
    &&& forall|i: int|
        0 <= i < CHUNK_VOLUME && !(o.current_block <= i < n.current_block) && o.chunk.is_some()
            ==> #[trigger] n.chunk.unwrap().blocks@[i] == o.chunk.unwrap().blocks@[i]
    &&& forall|i: int|
        0 <= i < CHUNK_VOLUME && !(o.current_block <= i < n.current_block) && o.chunk.is_none()
            ==> #[trigger] n.chunk.unwrap().blocks@[i].id == 0
    &&& n.pass == if n.current_block == CHUNK_VOLUME {
        GenerationPass::Sunbeams
    } else {
        o.pass
    }
    &&& n.pos == o.pos
    &&& n.priority == o.priority
    &&& n.depends_on == o.depends_on
    &&& n.blocks_lowest == o.blocks_lowest
    &&& n.blocks_beams == o.blocks_beams
}

/// The blocks generated, from `a` to `b`, for the chunks of keys `ks`: the
/// sum of how far each one's next block to generate moved.
pub open spec fn blocks_advanced(a: Map<u128, ChunkGenerationState>, b: Map<u128, ChunkGenerationState>, ks: Seq<u128>) -> int
    decreases ks.len(),
{
    if ks.len() == 0 {
        0
    } else {
        blocks_advanced(a, b, ks.drop_last()) + (b[ks.last()].current_block - a[ks.last()].current_block)
    }
}

proof fn lemma_blocks_advanced_same(a: Map<u128, ChunkGenerationState>, b: Map<u128, ChunkGenerationState>, c: Map<u128, ChunkGenerationState>, ks: Seq<u128>)
    requires
        forall|j: int| 0 <= j < ks.len() ==> b[#[trigger] ks[j]] == c[ks[j]],
    ensures
        blocks_advanced(a, b, ks) == blocks_advanced(a, c, ks),
    decreases ks.len(),
{
    if ks.len() > 0 {
        assert forall|j: int| 0 <= j < ks.drop_last().len() implies b[#[trigger] ks.drop_last()[j]] == c[ks.drop_last()[j]] by {
            assert(ks.drop_last()[j] == ks[j]);
        }
        lemma_blocks_advanced_same(a, b, c, ks.drop_last());
        assert(b[ks.last()] == c[ks.last()]) by {
            assert(ks.last() == ks[ks.len() - 1]);
        }
    }
}

/// Ten distinct chunks waiting for their blocks in `a` have all their blocks
/// in `b`, and moved on to the sun beam pass.
pub open spec fn completed_ten(a: Map<u128, ChunkGenerationState>, b: Map<u128, ChunkGenerationState>) -> bool {
    exists|done: Seq<u128>|
        {
            &&& done.len() == 10
            &&& done.no_duplicates()
            &&& forall|j: int|
                0 <= j < 10 ==> a.contains_key(#[trigger] done[j]) && a[done[j]].pass == GenerationPass::Blocks
                    && b.contains_key(done[j]) && b[done[j]].pass == GenerationPass::Sunbeams
        }
}

impl ChunkGenerationRequest {
    /// Every chunk waiting for the chunk above goes back to the lighting pass
    /// once that chunk is loaded, and no longer depends on it.
    pub fn resume_waiting(&mut self, universe: &Universe)
        requires
            old(self).wf(),
            old(self).positions_safe(),
        ensures
            final(self).wf(),
            final(self).positions_safe(),
            final(self).requested@.dom() == old(self).requested@.dom(),
            forall|k: u128|
                #[trigger] final(self).requested@.contains_key(k) ==> {
                    let o = old(self).requested@[k];
                    let n = final(self).requested@[k];
                    if o.pass == GenerationPass::WaitingForSunbeams && universe.chunk_at(above_of(o.pos)).is_some() {
                        &&& n.pass == GenerationPass::Lighting
                        &&& n.depends_on@ == without(o.depends_on@, above_of(o.pos))
                        &&& n == ChunkGenerationState { pass: n.pass, depends_on: n.depends_on, ..o }
                    } else {
                        n == o
                    }
                },
    {
        let keys = self.keys_for_pass(GenerationPass::WaitingForSunbeams);
        let ghost r0 = self.requested@;
        let mut i: usize = 0;
        while i < keys.len()
            invariant
                i <= keys@.len(),
                forall|k: u128|
                    #[trigger] keys@.contains(k) <==> r0.contains_key(k) && r0[k].pass
                        == GenerationPass::WaitingForSunbeams,
                self.wf(),
                self.positions_safe(),
                self.requested@.dom() == r0.dom(),
                forall|k: u128|
                    #[trigger] self.requested@.contains_key(k) ==> {
                        let o = r0[k];
                        let n = self.requested@[k];
                        if o.pass == GenerationPass::WaitingForSunbeams && universe.chunk_at(above_of(o.pos)).is_some()
                            && keys@.subrange(0, i as int).contains(k) {
                            &&& n.pass == GenerationPass::Lighting
                            &&& n.depends_on@ == without(o.depends_on@, above_of(o.pos))
                            &&& n == ChunkGenerationState { pass: n.pass, depends_on: n.depends_on, ..o }
                        } else {
                            n == o
                        }
                    },
            decreases keys.len() - i,
        {
            let k = keys[i];
            proof {
                assert(keys@.contains(k)) by {
                    assert(keys@[i as int] == k);
                }
                assert(keys@.subrange(0, i + 1) =~= keys@.subrange(0, i as int).push(k));
            }
            let ghost before = self.requested@;
            match self.requested.remove(&k) {
                Some(mut st) => {
                    if st.pass == GenerationPass::WaitingForSunbeams {
                        let pos = st.pos;
                        st.resume_if_above_loaded(pos, universe);
                    }
                    self.requested.insert(k, st);
                },
                None => {
                    proof {
                        assert(false);
                    }
                },
            }
            proof {
                assert(self.requested@.dom() =~= r0.dom());
                assert forall|kk: u128|
                    #[trigger] self.requested@.contains_key(kk) implies {
                        let o = r0[kk];
                        let n = self.requested@[kk];
                        if o.pass == GenerationPass::WaitingForSunbeams && universe.chunk_at(above_of(o.pos)).is_some()
                            && keys@.subrange(0, i + 1).contains(kk) {
                            &&& n.pass == GenerationPass::Lighting
                            &&& n.depends_on@ == without(o.depends_on@, above_of(o.pos))
                            &&& n == ChunkGenerationState { pass: n.pass, depends_on: n.depends_on, ..o }
                        } else {
                            n == o
                        }
                    } by {
                    if kk != k {
                        assert(self.requested@[kk] == before[kk]);
                        assert(keys@.subrange(0, i + 1).contains(kk) == keys@.subrange(0, i as int).contains(kk));
                    } else {
                        assert(keys@.subrange(0, i + 1).contains(kk)) by {
                            assert(keys@.subrange(0, i + 1)[i as int] == kk);
                        }
                        assert(r0[kk].pass == GenerationPass::WaitingForSunbeams);
                        assert(before[kk].pos == r0[kk].pos);
                    }
                }
            }
            i = i + 1;
        }
        proof {
            assert(keys@.subrange(0, keys@.len() as int) =~= keys@);
        }
    }

    /// Generates blocks for at most ten chunks waiting for them, calling
    /// `generator` with the world position of each block, until `processed`
    /// (counting generated blocks) reaches the budget `max`. A chunk whose
    /// blocks are all generated moves on to the sun beam pass.
    pub fn run_blocks_passes<F: Fn(IVec3) -> Block>(&mut self, generator: &F, processed: &mut usize, max: usize)
        requires
            old(self).wf(),
            old(self).positions_safe(),
            *old(processed) <= max,
            forall|p: IVec3| call_requires(*generator, (p,)),
        ensures
            final(self).wf(),
            final(self).positions_safe(),
            final(self).requested@.dom() == old(self).requested@.dom(),
            forall|k: u128|
                #[trigger] final(self).requested@.contains_key(k) ==> final(self).requested@[k] == old(
                    self,
                ).requested@[k] || (old(self).requested@[k].pass == GenerationPass::Blocks && blocks_generated(
                    old(self).requested@[k],
                    final(self).requested@[k],
                    *generator,
                )),
            *old(processed) <= *final(processed) <= max,
            *final(processed) == max || (forall|k: u128|
                #[trigger] final(self).requested@.contains_key(k) ==> final(self).requested@[k].pass
                    != GenerationPass::Blocks) || completed_ten(old(self).requested@, final(self).requested@),
            exists|touched: Seq<u128>|
                {
                    &&& touched.no_duplicates()
                    &&& forall|j: int| 0 <= j < touched.len() ==> old(self).requested@.contains_key(#[trigger] touched[j])
                    &&& forall|k: u128|
                        #[trigger] final(self).requested@.contains_key(k) && !touched.contains(k)
                            ==> final(self).requested@[k] == old(self).requested@[k]
                    &&& *final(processed) - *old(processed) == blocks_advanced(
                        old(self).requested@,
                        final(self).requested@,
                        touched,
                    )
                },
    {
        let ghost r0 = self.requested@;
        let ghost mut done: Seq<u128> = Seq::empty();
        let ghost mut touched: Seq<u128> = Seq::empty();
        let mut spent: usize = *processed;
        let mut n: usize = 0;
        while n < 10 && spent < max
            invariant
                n <= 10,
                *old(processed) <= spent <= max,
                forall|p: IVec3| call_requires(*generator, (p,)),
                self.wf(),
                self.positions_safe(),
                self.requested@.dom() == r0.dom(),
                forall|k: u128|
                    #[trigger] self.requested@.contains_key(k) ==> self.requested@[k] == r0[k] || (r0[k].pass
                        == GenerationPass::Blocks && blocks_generated(r0[k], self.requested@[k], *generator)),
                spent < max ==> done.len() == n,
                done.no_duplicates(),
                forall|j: int|
                    0 <= j < done.len() ==> r0.contains_key(#[trigger] done[j]) && r0[done[j]].pass
                        == GenerationPass::Blocks && self.requested@[done[j]].pass == GenerationPass::Sunbeams,
                touched.no_duplicates(),
                forall|j: int|
                    0 <= j < touched.len() ==> r0.contains_key(#[trigger] touched[j]) && (
                    self.requested@[touched[j]].pass != GenerationPass::Blocks || spent == max),
                forall|k: u128|
                    #[trigger] self.requested@.contains_key(k) && !touched.contains(k) ==> self.requested@[k] == r0[k],
                spent - *old(processed) == blocks_advanced(r0, self.requested@, touched),
            ensures
                n == 10 || spent >= max || forall|k: u128|
                    #[trigger] self.requested@.contains_key(k) ==> self.requested@[k].pass != GenerationPass::Blocks,
                spent < max ==> done.len() == n,
                done.no_duplicates(),
                forall|j: int|
                    0 <= j < done.len() ==> r0.contains_key(#[trigger] done[j]) && r0[done[j]].pass
                        == GenerationPass::Blocks && self.requested@[done[j]].pass == GenerationPass::Sunbeams,
                touched.no_duplicates(),
                forall|j: int| 0 <= j < touched.len() ==> r0.contains_key(#[trigger] touched[j]),
                forall|k: u128|
                    #[trigger] self.requested@.contains_key(k) && !touched.contains(k) ==> self.requested@[k] == r0[k],
                spent - *old(processed) == blocks_advanced(r0, self.requested@, touched),
            decreases 10 - n,
        {
            let keys = self.keys_for_pass(GenerationPass::Blocks);
            if keys.len() == 0 {
                proof {
                    assert forall|k: u128| #[trigger] self.requested@.contains_key(k) implies self.requested@[k].pass
                        != GenerationPass::Blocks by {
                        if self.requested@[k].pass == GenerationPass::Blocks {
                            assert(keys@.contains(k));
                        }
                    }
                }
                break;
            }
            let k = keys[0];
            proof {
                assert(keys@.contains(k)) by {
                    assert(keys@[0] == k);
                }
            }
            let ghost before = self.requested@;
            match self.requested.remove(&k) {
                Some(mut st) => {
                    let ghost st0 = st;
                    let (start, end) = st.blocks_range(max - spent);
                    let pos = st.pos;
                    let mut generated: Vec<Block> = Vec::new();
                    let mut i: usize = start;
                    while i < end
                        invariant
                            start <= i <= end <= CHUNK_VOLUME,
                            generated@.len() == i - start,
                            crate::terrain::pos_safe(pos),
                            forall|p: IVec3| call_requires(*generator, (p,)),
                            forall|j: int|
                                0 <= j < generated@.len() ==> call_ensures(
                                    *generator,
                                    (world_of(pos, start + j),),
                                    #[trigger] generated@[j],
                                ),
                        decreases end - i,
                    {
                        let rel = idx2xyz(i);
                        proof {
                            crate::chunk::lemma_pos_of_index(i as int);
                        }
                        let wp = IVec3 { x: pos.x + rel.x, y: pos.y + rel.y, z: pos.z + rel.z };
                        let b = generator(wp);
                        generated.push(b);
                        i = i + 1;
                    }
                    st.store_generated(generated);
                    proof {
                        assert(end == CHUNK_VOLUME || spent + (end - start) == max);
                        assert(end == CHUNK_VOLUME ==> st.pass == GenerationPass::Sunbeams);
                    }
                    let ghost done0 = done;
                    proof {
                        assert(!done0.contains(k)) by {
                            if done0.contains(k) {
                                let j = choose|j: int| 0 <= j < done0.len() && done0[j] == k;
                                assert(before[done0[j]].pass == GenerationPass::Sunbeams);
                            }
                        }
                        if end == CHUNK_VOLUME {
                            done = done0.push(k);
                        }
                    }
                    let ghost spent0 = spent;
                    spent = spent + (end - start);
                    proof {
                        assert(!touched.contains(k)) by {
                            if touched.contains(k) {
                                let j = choose|j: int| 0 <= j < touched.len() && touched[j] == k;
                                assert(before[touched[j]].pass != GenerationPass::Blocks || spent0 == max);
                            }
                        }
                        assert(before[k] == r0[k]);
                    }
                    proof {
                        assert(blocks_generated(r0[k], st, *generator)) by {
                            if before[k] != r0[k] {
                                assert(blocks_generated(r0[k], before[k], *generator));
                            }
                            assert(st0 == before[k]);
                            assert(st0.pass == GenerationPass::Blocks);
                            assert forall|j: int|
                                r0[k].current_block <= j < st.current_block implies call_ensures(
                                    *generator,
                                    (world_of(r0[k].pos, j),),
                                    #[trigger] st.chunk.unwrap().blocks@[j],
                                ) by {
                                if j >= st0.current_block {
                                    assert(st.chunk.unwrap().blocks@[j] == generated@[j - st0.current_block]);
                                } else {
                                    assert(st.chunk.unwrap().blocks@[j] == st0.chunk.unwrap().blocks@[j]);
                                }
                            }
                        }
                    }
                    self.requested.insert(k, st);
                    proof {
                        let t0 = touched;
                        let t1 = t0.push(k);
                        assert forall|j: int| 0 <= j < t0.len() implies before[#[trigger] t0[j]] == self.requested@[t0[j]] by {
                            assert(t0[j] != k);
                        }
                        lemma_blocks_advanced_same(r0, before, self.requested@, t0);
                        assert(t1.drop_last() =~= t0);
                        assert(blocks_advanced(r0, self.requested@, t1) == blocks_advanced(r0, self.requested@, t0)
                            + (st.current_block - r0[k].current_block));
                        assert(t1.no_duplicates()) by {
                            assert forall|a: int, b: int| 0 <= a < t1.len() && 0 <= b < t1.len() && a != b implies t1[a]
                                != t1[b] by {
                                if a < t0.len() && b < t0.len() {
                                    assert(t1[a] == t0[a] && t1[b] == t0[b]);
                                } else if a < t0.len() {
                                    assert(t0.contains(t1[a]));
                                } else if b < t0.len() {
                                    assert(t0.contains(t1[b]));
                                }
                            }
                        }
                        assert forall|kk: u128|
                            #[trigger] self.requested@.contains_key(kk) && !t1.contains(kk) implies self.requested@[kk]
                                == r0[kk] by {
                            assert(kk != k) by {
                                if kk == k {
                                    assert(t1[t0.len() as int] == k);
                                }
                            }
                            if t0.contains(kk) {
                                let j = choose|j: int| 0 <= j < t0.len() && t0[j] == kk;
                                assert(t1[j] == kk);
                            }
                        }
                        assert forall|j: int| 0 <= j < t1.len() implies r0.contains_key(#[trigger] t1[j]) && (
                            self.requested@[t1[j]].pass != GenerationPass::Blocks || spent == max) by {
                            if j < t0.len() {
                                assert(t1[j] == t0[j]);
                                assert(t0[j] != k);
                            }
                        }
                        touched = t1;
                    }
                },
                None => {
                    proof {
                        assert(false);
                    }
                },
            }
            proof {
                assert(self.requested@.dom() =~= r0.dom());
            }
            n = n + 1;
        }
        proof {
            if n == 10 && spent < max {
                assert(completed_ten(r0, self.requested@)) by {
                    assert forall|j: int| 0 <= j < 10 implies r0.contains_key(#[trigger] done[j]) && r0[done[j]].pass
                        == GenerationPass::Blocks && self.requested@.contains_key(done[j]) && self.requested@[done[j]].pass
                        == GenerationPass::Sunbeams by {}
                }
            }
        }
        *processed = spent;
    }
}


/// Every chunk held by a request has blocks whose identifiers the blueprints
/// know.
pub open spec fn requests_ids_known(req: ChunkGenerationRequest, bp: Blueprints) -> bool {
    forall|k: u128|
        #[trigger] req.requested@.contains_key(k) && req.requested@[k].chunk is Some ==> chunk_ids_known(
            req.requested@[k].chunk.unwrap().blocks@,
            bp,
        )
}

/// The blocks passes, from the requests `a` to `b`, spending `spent` of the
/// budget `max`: each request is unchanged or had blocks generated; `spent`
/// is exactly the number of blocks generated and within the budget; unless
/// the budget is spent, no request waits for blocks or ten were completed.
pub open spec fn blocks_step<F: Fn(IVec3) -> Block>(
    a: Map<u128, ChunkGenerationState>,
    b: Map<u128, ChunkGenerationState>,
    generator: F,
    spent: int,
    max: int,
) -> bool {
    &&& b.dom() == a.dom()
    &&& forall|k: u128|
        #[trigger] b.contains_key(k) ==> b[k] == a[k] || (a[k].pass == GenerationPass::Blocks && blocks_generated(
            a[k],
            b[k],
            generator,
        ))
    &&& 0 <= spent <= max
    &&& spent == max || (forall|k: u128| #[trigger] b.contains_key(k) ==> b[k].pass != GenerationPass::Blocks)
        || completed_ten(a, b)
    &&& exists|touched: Seq<u128>|
        {
            &&& touched.no_duplicates()
            &&& forall|j: int| 0 <= j < touched.len() ==> a.contains_key(#[trigger] touched[j])
            &&& forall|k: u128| #[trigger] b.contains_key(k) && !touched.contains(k) ==> b[k] == a[k]
            &&& spent == blocks_advanced(a, b, touched)
        }
}

/// The return of waiting requests, from `a` to `b`, given the universe `u`:
/// a request waiting for a loaded chunk above moves to the lighting pass and
/// no longer depends on it; every other request is unchanged.
pub open spec fn resume_step(a: Map<u128, ChunkGenerationState>, b: Map<u128, ChunkGenerationState>, u: Universe) -> bool {
    &&& b.dom() == a.dom()
    &&& forall|k: u128|
        #[trigger] b.contains_key(k) ==> {
            let o = a[k];
            let n = b[k];
            if o.pass == GenerationPass::WaitingForSunbeams && u.chunk_at(above_of(o.pos)).is_some() {
                &&& n.pass == GenerationPass::Lighting
                &&& n.depends_on@ == without(o.depends_on@, above_of(o.pos))
                &&& n == ChunkGenerationState { pass: n.pass, depends_on: n.depends_on, ..o }
            } else {
                n == o
            }
        }
}

/// The sun beam passes, from `a` to `b` and from the beams `sa` to `sb`, the
/// spent budget going from `p0` to `p1`: a chain of sun beam passes (see
/// [`sunbeam_done`]), one per chunk's volume of budget, then the chunks above
/// the waiting ones requested.
pub open spec fn sunbeam_step(
    a: Map<u128, ChunkGenerationState>,
    b: Map<u128, ChunkGenerationState>,
    u: Universe,
    sa: crate::sun_beams::SunBeams,
    sb: crate::sun_beams::SunBeams,
    p0: int,
    p1: int,
    max: int,
) -> bool {
    &&& forall|k: u128|
        #[trigger] a.contains_key(k) ==> b.contains_key(k) && (reprioritized(a[k], b[k]) || (a[k].pass
            == GenerationPass::Sunbeams && sunbeam_stepped(a[k], b[k], u)))
    &&& forall|k: u128|
        #[trigger] a.contains_key(k) && a[k].pass == GenerationPass::Sunbeams && b[k].pass
            == GenerationPass::WaitingForSunbeams && crate::terrain::pos_safe(above_of(a[k].pos)) ==> b.contains_key(
            pos_key(above_of(a[k].pos)),
        )
    &&& forall|k: u128|
        #[trigger] b.contains_key(k) && !a.contains_key(k) ==> b[k].pass == GenerationPass::Blocks && b[k].priority == 0
            && b[k].chunk.is_none()
    &&& p0 <= p1 <= p0 + 10 * CHUNK_VOLUME
    &&& p0 >= max ==> p1 == p0
    &&& (p1 - p0) % (CHUNK_VOLUME as int) == 0
    &&& beams_grown(sa, sb)
    &&& p1 == p0 + 10 * CHUNK_VOLUME || p1 >= max || forall|k: u128|
        #[trigger] b.contains_key(k) ==> b[k].pass != GenerationPass::Sunbeams
    &&& exists|ms: Seq<Map<u128, ChunkGenerationState>>, ks: Seq<u128>, sbs: Seq<crate::sun_beams::SunBeams>|
        #[trigger] sunbeam_chain(ms, ks, sbs, u) && ms[0] == a && sbs[0] == sa && sbs.last() == sb && p1 - p0
            == ks.len() * CHUNK_VOLUME && forall|k: u128|
            #[trigger] ms.last().contains_key(k) ==> b.contains_key(k) && reprioritized(ms.last()[k], b[k])
}

/// The biome passes, from `a` to `b`, given the beams `sb`, the spent budget
/// going from `p0` to `p1`.
pub open spec fn biome_step(
    a: Map<u128, ChunkGenerationState>,
    b: Map<u128, ChunkGenerationState>,
    sb: crate::sun_beams::SunBeams,
    bp: Blueprints,
    p0: int,
    p1: int,
    max: int,
) -> bool {
    &&& b.dom() == a.dom()
    &&& forall|k: u128|
        #[trigger] b.contains_key(k) ==> b[k] == a[k] || (a[k].pass == GenerationPass::Biome && biome_done(
            a[k],
            b[k],
            sb,
            bp,
        ))
    &&& forall|k: u128| #[trigger] b.contains_key(k) && b[k].pass == GenerationPass::Biome ==> p1 >= max
    &&& p1 >= p0
    &&& p0 >= max ==> p1 == p0
}

/// The lighting passes, from `a` to `b`, given the beams `sb`, the spent
/// budget going from `p0` to `p1`.
pub open spec fn lighting_step(
    a: Map<u128, ChunkGenerationState>,
    b: Map<u128, ChunkGenerationState>,
    sb: crate::sun_beams::SunBeams,
    bp: Blueprints,
    p0: int,
    p1: int,
    max: int,
) -> bool {
    &&& b.dom() == a.dom()
    &&& forall|k: u128|
        #[trigger] b.contains_key(k) ==> b[k] == a[k] || (a[k].pass == GenerationPass::Lighting && lighting_done(
            a[k],
            b[k],
            sb,
            bp,
        ))
    &&& forall|k: u128| #[trigger] b.contains_key(k) && b[k].pass == GenerationPass::Lighting ==> p1 >= max
    &&& p1 >= p0
    &&& p0 >= max ==> p1 == p0
}

/// Finished requests move into the universe: from `a` to `b` and from the
/// universe `u0` to `u1`.
pub open spec fn collect_step(
    a: Map<u128, ChunkGenerationState>,
    b: Map<u128, ChunkGenerationState>,
    u0: Universe,
    u1: Universe,
) -> bool {
    &&& forall|k: u128| #[trigger] b.contains_key(k) <==> a.contains_key(k) && a[k].pass != GenerationPass::Done
    &&& forall|k: u128| #[trigger] b.contains_key(k) ==> b[k] == a[k]
    &&& forall|k: u128|
        a.contains_key(k) && a[k].pass == GenerationPass::Done ==> #[trigger] u1.chunk_at_key(k) == a[k].chunk
    &&& forall|k: u128|
        !(a.contains_key(k) && a[k].pass == GenerationPass::Done) ==> #[trigger] u1.chunks@.contains_key(k)
            == u0.chunks@.contains_key(k) && (u1.chunks@.contains_key(k) ==> u1.chunks@[k] == u0.chunks@[k])
}

/// One generation step, through the requests `r1` to `r5` between its
/// passes, the beams `sb3` after the sun beam passes and `sb4` before the
/// lighting passes, and the budget spent after each budgeted pass: blocks,
/// return of waiting requests, sun beams, biome, lighting, and the move of
/// finished chunks into the universe.
pub open spec fn generation_trace<F: Fn(IVec3) -> Block>(
    r0: Map<u128, ChunkGenerationState>,
    r1: Map<u128, ChunkGenerationState>,
    r2: Map<u128, ChunkGenerationState>,
    r3: Map<u128, ChunkGenerationState>,
    r4: Map<u128, ChunkGenerationState>,
    r5: Map<u128, ChunkGenerationState>,
    rf: Map<u128, ChunkGenerationState>,
    u0: Universe,
    uf: Universe,
    sb0: crate::sun_beams::SunBeams,
    sb3: crate::sun_beams::SunBeams,
    sb4: crate::sun_beams::SunBeams,
    generator: F,
    bp: Blueprints,
    p1: int,
    p2: int,
    p3: int,
    p4: int,
    max: int,
) -> bool {
    &&& blocks_step(r0, r1, generator, p1, max)
    &&& resume_step(r1, r2, u0)
    &&& sunbeam_step(r2, r3, u0, sb0, sb3, p1, p2, max)
    &&& biome_step(r3, r4, sb3, bp, p2, p3, max)
    &&& forall|xz: IVec2| #[trigger] sb4.beam_at(xz) == sb3.beam_at(xz)
    &&& lighting_step(r4, r5, sb4, bp, p3, p4, max)
    &&& collect_step(r5, rf, u0, uf)
}

impl ChunkGenerationRequest {
    /// Whether the blueprints know the identifier of every block of every
    /// chunk the requests hold.
    pub fn ids_known(&self, bp: &Blueprints) -> (r: bool)
        requires
            self.wf(),
        ensures
            r == requests_ids_known(*self, *bp),
    {
        let keys = crate::terrain::key_list(&self.requested);
        let n = bp.blocks.len();
        let mut i: usize = 0;
        while i < keys.len()
            invariant
                i <= keys@.len(),
                self.wf(),
                n == bp.blocks@.len(),
                keys@.to_set() == self.requested@.dom(),
                forall|j: int|
                    0 <= j < i && #[trigger] self.requested@[keys@[j]].chunk is Some ==> chunk_ids_known(
                        self.requested@[keys@[j]].chunk.unwrap().blocks@,
                        *bp,
                    ),
            decreases keys.len() - i,
        {
            let k = keys[i];
            proof {
                assert(keys@.to_set().contains(k));
            }
            let st = match self.requested.get(&k) {
                Some(st) => st,
                None => {
                    proof {
                        assert(false);
                    }
                    return false;
                },
            };
            match &st.chunk {
                Some(chunk) => {
                    let mut b: usize = 0;
                    while b < chunk.blocks.len()
                        invariant
                            b <= chunk.blocks@.len(),
                            n == bp.blocks@.len(),
                            forall|c: int| 0 <= c < b ==> (#[trigger] chunk.blocks@[c].id as int) < bp.blocks@.len(),
                            self.requested@.contains_key(k),
                            self.requested@[k].chunk == Some(*chunk),
                        decreases chunk.blocks.len() - b,
                    {
                        if chunk.blocks[b].id as usize >= n {
                            proof {
                                assert(self.requested@.contains_key(k));
                                assert(self.requested@[k].chunk.unwrap().blocks@[b as int] == chunk.blocks@[b as int]);
                                assert(!chunk_ids_known(self.requested@[k].chunk.unwrap().blocks@, *bp));
                            }
                            return false;
                        }
                        b = b + 1;
                    }
                },
                None => {},
            }
            i = i + 1;
        }
        proof {
            assert forall|k: u128|
                #[trigger] self.requested@.contains_key(k) && self.requested@[k].chunk is Some implies chunk_ids_known(
                self.requested@[k].chunk.unwrap().blocks@,
                *bp,
            ) by {
                assert(keys@.to_set().contains(k));
                let j = choose|j: int| 0 <= j < keys@.len() && keys@[j] == k;
                assert(self.requested@[keys@[j]].chunk is Some);
            }
        }
        true
    }
}

impl ChunkGenerationRequest {
    /// One round of generation, within the block budget `max`: the blocks
    /// passes, the return of chunks whose chunk above is now loaded, the sun
    /// beam, biome and lighting passes, and finally the finished chunks move
    /// into the universe. Returns the positions of the chunks that moved.
    ///
    /// Each pass does what its own contract says (`generation_trace`): the
    /// blocks generated are exactly the budget spent by the blocks passes and
    /// at most `max`; a waiting request whose chunk above is loaded goes back
    /// to the lighting pass. No request is left finished; a chunk leaves the
    /// blocks pass only with all its blocks generated; every request that is
    /// gone has its chunk in the universe.
    #[verifier::rlimit(60)]
    #[verifier::spinoff_prover]
    pub fn run_generation_step<F: Fn(IVec3) -> Block>(
        &mut self,
        universe: &mut Universe,
        sun_beams: &mut crate::sun_beams::SunBeams,
        bp: &Blueprints,
        light_sources: &mut crate::terrain::LightSources,
        generator: &F,
        max: usize,
    ) -> (r: Vec<IVec3>)
        requires
            old(self).wf(),
            old(self).positions_safe(),
            old(universe).wf(),
            crate::terrain::beams_safe(*old(sun_beams)),
            bp.wf(),
            bp.has_named("Grass"@),
            bp.has_named("Dirt"@),
            old(light_sources).wf(),
            max + 10 * CHUNK_VOLUME <= usize::MAX,
            forall|p: IVec3| call_requires(*generator, (p,)),
            forall|p: IVec3, b: Block| call_ensures(*generator, (p,), b) ==> (b.id as int) < bp.blocks@.len(),
            requests_ids_known(*old(self), *bp),
        ensures
            final(self).wf(),
            final(self).positions_safe(),
            final(universe).wf(),
            crate::terrain::beams_safe(*final(sun_beams)),
            final(light_sources).wf(),
            crate::terrain::leaked_appended(*old(light_sources), *final(light_sources)),
            requests_ids_known(*final(self), *bp),
            forall|k: u128|
                #[trigger] final(self).requested@.contains_key(k) ==> final(self).requested@[k].pass
                    != GenerationPass::Done,
            forall|k: u128|
                #[trigger] old(self).requested@.contains_key(k) && old(self).requested@[k].pass == GenerationPass::Blocks
                    && final(self).requested@.contains_key(k) && final(self).requested@[k].pass != GenerationPass::Blocks
                    ==> final(self).requested@[k].current_block == CHUNK_VOLUME,
            forall|k: u128|
                #[trigger] old(self).requested@.contains_key(k) && !final(self).requested@.contains_key(k)
                    ==> final(universe).chunks@.contains_key(k),
            forall|i: int|
                0 <= i < r@.len() ==> final(universe).chunks@.contains_key(pos_key(#[trigger] r@[i]))
                    && !final(self).requested@.contains_key(pos_key(r@[i])),
            exists|
                r1: Map<u128, ChunkGenerationState>,
                r2: Map<u128, ChunkGenerationState>,
                r3: Map<u128, ChunkGenerationState>,
                r4: Map<u128, ChunkGenerationState>,
                r5: Map<u128, ChunkGenerationState>,
                sb3: crate::sun_beams::SunBeams,
                sb4: crate::sun_beams::SunBeams,
                p1: int,
                p2: int,
                p3: int,
                p4: int,
            |
                #[trigger] generation_trace(
                    old(self).requested@,
                    r1,
                    r2,
                    r3,
                    r4,
                    r5,
                    final(self).requested@,
                    *old(universe),
                    *final(universe),
                    *old(sun_beams),
                    sb3,
                    sb4,
                    *generator,
                    *bp,
                    p1,
                    p2,
                    p3,
                    p4,
                    max as int,
                ) && forall|k: u128|
                    #[trigger] r5.contains_key(k) && r5[k] != r4[k] ==> lit_settled(
                        r4[k].chunk.unwrap().blocks@,
                        r5[k].chunk.unwrap().blocks@,
                        *final(light_sources),
                        sb4,
                        r4[k].pos,
                        *bp,
                    ),
    {
        let ghost r0 = self.requested@;
        let ghost u0 = *universe;
        let ghost sb0 = *sun_beams;
        let mut processed: usize = 0;
        self.run_blocks_passes(generator, &mut processed, max);
        let ghost r1 = self.requested@;
        let ghost p1: int = processed as int;
        proof {
            assert(blocks_step(r0, r1, *generator, p1, max as int));
        }
        proof {
            assert forall|k: u128|
                #[trigger] self.requested@.contains_key(k) && self.requested@[k].chunk is Some implies chunk_ids_known(
                self.requested@[k].chunk.unwrap().blocks@,
                *bp,
            ) by {
                if self.requested@[k] != r0[k] {
                    let o = r0[k];
                    let n = self.requested@[k];
                    assert(blocks_generated(o, n, *generator));
                    assert forall|i: int| 0 <= i < n.chunk.unwrap().blocks@.len() implies (
                    #[trigger] n.chunk.unwrap().blocks@[i].id as int) < bp.blocks@.len() by {
                        if o.current_block <= i < n.current_block {
                            assert(call_ensures(*generator, (world_of(o.pos, i),), n.chunk.unwrap().blocks@[i]));
                        } else if o.chunk.is_some() {
                            assert(n.chunk.unwrap().blocks@[i] == o.chunk.unwrap().blocks@[i]);
                        }
                    }
                }
            }
        }
        self.resume_waiting(universe);
        let ghost r2 = self.requested@;
        proof {
            assert(resume_step(r1, r2, u0));
        }
        self.run_sunbeam_passes(universe, sun_beams, &mut processed, max);
        let ghost r3 = self.requested@;
        let ghost p2: int = processed as int;
        proof {
            assert(sunbeam_step(r2, r3, u0, sb0, *sun_beams, p1, p2, max as int));
        }
        proof {
            assert forall|k: u128|
                #[trigger] self.requested@.contains_key(k) && self.requested@[k].chunk is Some implies chunk_ids_known(
                self.requested@[k].chunk.unwrap().blocks@,
                *bp,
            ) by {
                if r2.contains_key(k) {
                    assert(r1.contains_key(k));
                    assert(r2[k].chunk == r1[k].chunk);
                }
            }
        }
        let ghost r3_sb = *sun_beams;
        self.run_biome_passes(sun_beams, bp, &mut processed, max);
        let ghost r4 = self.requested@;
        let ghost p3: int = processed as int;
        proof {
            assert(biome_step(r3, r4, r3_sb, *bp, p2, p3, max as int));
        }
        proof {
            assert forall|k: u128|
                #[trigger] self.requested@.contains_key(k) && self.requested@[k].chunk is Some implies chunk_ids_known(
                self.requested@[k].chunk.unwrap().blocks@,
                *bp,
            ) by {
                let n = self.requested@[k];
                if n != r3[k] {
                    let o = r3[k];
                    assert(biome_done(o, n, r3_sb, *bp));
                    assert(grass_block(*bp).id == bp.blocks@[bp.first_named("Grass"@)].id);
                    assert(dirt_block(*bp).id == bp.blocks@[bp.first_named("Dirt"@)].id);
                    assert(bp.blocks@[bp.first_named("Grass"@)].wf());
                    assert(bp.blocks@[bp.first_named("Dirt"@)].wf());
                    lemma_biome_ids(
                        o.chunk.unwrap().blocks@,
                        r3_sb,
                        o.pos,
                        grass_block(*bp),
                        dirt_block(*bp),
                        CHUNK_AREA as int,
                        *bp,
                    );
                }
            }
        }
        let ghost sb4 = *sun_beams;
        let ghost ls4 = *light_sources;
        self.run_lighting_passes(sun_beams, bp, light_sources, &mut processed, max);
        let ghost p4: int = processed as int;
        proof {
            assert(lighting_step(r4, self.requested@, sb4, *bp, p3, p4, max as int));
        }
        proof {
            assert forall|k: u128|
                #[trigger] self.requested@.contains_key(k) && self.requested@[k].chunk is Some implies chunk_ids_known(
                self.requested@[k].chunk.unwrap().blocks@,
                *bp,
            ) by {
                let n = self.requested@[k];
                if n != r4[k] {
                    let o = r4[k];
                    assert forall|i: int| 0 <= i < n.chunk.unwrap().blocks@.len() implies (
                    #[trigger] n.chunk.unwrap().blocks@[i].id as int) < bp.blocks@.len() by {
                        assert(lit_block(
                            o.chunk.unwrap().blocks@[i],
                            n.chunk.unwrap().blocks@[i],
                            source_level(*bp, o.chunk.unwrap().blocks@[i]),
                            pos_in_beam(sb4, o.pos, pos_of(i)),
                        ));
                    }
                }
            }
        }
        let ghost r5 = self.requested@;
        let done = self.collect_done(universe);
        proof {
            assert(collect_step(r5, self.requested@, u0, *universe));
            assert forall|xz: IVec2| #[trigger] sb4.beam_at(xz) == r3_sb.beam_at(xz) by {}
            assert(generation_trace(
                r0,
                r1,
                r2,
                r3,
                r4,
                r5,
                self.requested@,
                u0,
                *universe,
                sb0,
                r3_sb,
                sb4,
                *generator,
                *bp,
                p1,
                p2,
                p3,
                p4,
                max as int,
            ));
        }
        proof {
            assert forall|k: u128|
                #[trigger] r0.contains_key(k) && r0[k].pass == GenerationPass::Blocks && self.requested@.contains_key(k)
                    && self.requested@[k].pass != GenerationPass::Blocks implies self.requested@[k].current_block
                    == CHUNK_VOLUME by {
                assert(r1.contains_key(k));
                if r1[k].pass == GenerationPass::Blocks {
                    assert(r2[k].pass == GenerationPass::Blocks);
                    assert(r3[k].pass == GenerationPass::Blocks || r3[k].current_block == r2[k].current_block);
                    assert(r3[k].pass == GenerationPass::Blocks);
                    assert(r4[k] == r3[k]);
                    assert(r5[k] == r4[k]);
                } else {
                    assert(r1[k].current_block == CHUNK_VOLUME);
                    assert(r2[k].current_block == r1[k].current_block);
                    assert(r3[k].current_block == r2[k].current_block);
                    assert(r4[k].current_block == r3[k].current_block);
                    assert(r5[k].current_block == r4[k].current_block);
                }
            }
            assert forall|k: u128|
                #[trigger] r0.contains_key(k) && !self.requested@.contains_key(k) implies universe.chunks@.contains_key(
                k,
            ) by {
                assert(r1.contains_key(k));
                assert(r2.contains_key(k));
                assert(r3.contains_key(k));
                assert(r4.contains_key(k));
                assert(r5.contains_key(k));
                assert(r5[k].pass == GenerationPass::Done);
                assert(universe.chunk_at_key(k) == r5[k].chunk);
            }
        }
        done
    }
}

/// Whether the chunk of key `k` must stay loaded: it is wanted (by a player
/// or as a spawn chunk), requested, or depended on by a requested chunk.
pub open spec fn chunk_needed(base: Seq<IVec3>, req: ChunkGenerationRequest, k: u128) -> bool {
    ||| exists|i: int| 0 <= i < base.len() && pos_key(#[trigger] base[i]) == k
    ||| req.requested@.contains_key(k)
    ||| exists|k2: u128, j: int|
        #![trigger req.requested@[k2].depends_on@[j]]
        req.requested@.contains_key(k2) && 0 <= j < req.requested@[k2].depends_on@.len() && pos_key(
            req.requested@[k2].depends_on@[j],
        ) == k
}

/// The keys of the loaded chunks that no longer need to stay loaded, each
/// once.
pub fn chunks_to_unload(universe: &Universe, base: &Vec<IVec3>, request: &ChunkGenerationRequest) -> (r: Vec<u128>)
    ensures
        forall|k: u128| #[trigger] r@.contains(k) <==> universe.chunks@.contains_key(k) && !chunk_needed(base@, *request, k),
        r@.no_duplicates(),
{
    let mut needed: std::collections::HashSet<u128> = std::collections::HashSet::new();
    let mut i: usize = 0;
    while i < base.len()
        invariant
            i <= base@.len(),
            forall|k: u128| #[trigger] needed@.contains(k) <==> exists|j: int| 0 <= j < i && pos_key(#[trigger] base@[j]) == k,
        decreases base.len() - i,
    {
        let ghost n0 = needed@;
        needed.insert(base[i].key());
        proof {
            assert forall|k: u128| #[trigger] needed@.contains(k) <==> exists|j: int| 0 <= j < i + 1 && pos_key(#[trigger] base@[j]) == k by {
                if needed@.contains(k) && k != pos_key(base@[i as int]) {
                    assert(n0.contains(k));
                }
                if exists|j: int| 0 <= j < i + 1 && pos_key(#[trigger] base@[j]) == k {
                    let j = choose|j: int| 0 <= j < i + 1 && pos_key(#[trigger] base@[j]) == k;
                    if j < i {
                        assert(n0.contains(k));
                    }
                }
            }
        }
        i = i + 1;
    }
    let ghost base_set = needed@;
    let req_keys = crate::terrain::key_list(&request.requested);
    let mut a: usize = 0;
    while a < req_keys.len()
        invariant
            a <= req_keys@.len(),
            req_keys@.to_set() == request.requested@.dom(),
            forall|k: u128|
                #[trigger] needed@.contains(k) <==> base_set.contains(k) || exists|b: int|
                    0 <= b < a && (req_keys@[b] == k || exists|j: int|
                        #![trigger request.requested@[req_keys@[b]].depends_on@[j]]
                        0 <= j < request.requested@[req_keys@[b]].depends_on@.len() && pos_key(
                            request.requested@[req_keys@[b]].depends_on@[j],
                        ) == k),
        decreases req_keys.len() - a,
    {
        let k2 = req_keys[a];
        proof {
            assert(req_keys@.to_set().contains(k2));
        }
        let ghost n0 = needed@;
        needed.insert(k2);
        let st = match request.requested.get(&k2) {
            Some(st) => st,
            None => {
                proof {
                    assert(false);
                }
                return Vec::new();
            },
        };
        let ghost n1 = needed@;
        let mut j: usize = 0;
        while j < st.depends_on.len()
            invariant
                j <= st.depends_on@.len(),
                forall|k: u128|
                    #[trigger] needed@.contains(k) <==> n1.contains(k) || exists|jj: int|
                        0 <= jj < j && pos_key(#[trigger] st.depends_on@[jj]) == k,
            decreases st.depends_on.len() - j,
        {
            let ghost n2 = needed@;
            needed.insert(st.depends_on[j].key());
            proof {
                assert forall|k: u128|
                    #[trigger] needed@.contains(k) <==> n1.contains(k) || exists|jj: int|
                        0 <= jj < j + 1 && pos_key(#[trigger] st.depends_on@[jj]) == k by {
                    if needed@.contains(k) && k != pos_key(st.depends_on@[j as int]) {
                        assert(n2.contains(k));
                    }
                    if exists|jj: int| 0 <= jj < j + 1 && pos_key(#[trigger] st.depends_on@[jj]) == k {
                        let jj = choose|jj: int| 0 <= jj < j + 1 && pos_key(#[trigger] st.depends_on@[jj]) == k;
                        if jj < j {
                            assert(n2.contains(k));
                        }
                    }
                }
            }
            j = j + 1;
        }
        proof {
            assert(*st == request.requested@[k2]);
            assert forall|k: u128|
                #[trigger] needed@.contains(k) <==> base_set.contains(k) || exists|b: int|
                    0 <= b < a + 1 && (req_keys@[b] == k || exists|j: int|
                        #![trigger request.requested@[req_keys@[b]].depends_on@[j]]
                        0 <= j < request.requested@[req_keys@[b]].depends_on@.len() && pos_key(
                            request.requested@[req_keys@[b]].depends_on@[j],
                        ) == k) by {
                let dep = exists|jj: int| 0 <= jj < st.depends_on@.len() && pos_key(#[trigger] st.depends_on@[jj]) == k;
                if dep {
                    let jj = choose|jj: int| 0 <= jj < st.depends_on@.len() && pos_key(#[trigger] st.depends_on@[jj]) == k;
                    assert(request.requested@[req_keys@[a as int]].depends_on@[jj] == st.depends_on@[jj]);
                }
                if k == k2 {
                    assert(req_keys@[a as int] == k);
                }
                if exists|b: int|
                    0 <= b < a + 1 && (req_keys@[b] == k || exists|j: int|
                        #![trigger request.requested@[req_keys@[b]].depends_on@[j]]
                        0 <= j < request.requested@[req_keys@[b]].depends_on@.len() && pos_key(
                            request.requested@[req_keys@[b]].depends_on@[j],
                        ) == k) {
                    let b = choose|b: int|
                        0 <= b < a + 1 && (req_keys@[b] == k || exists|j: int|
                            #![trigger request.requested@[req_keys@[b]].depends_on@[j]]
                            0 <= j < request.requested@[req_keys@[b]].depends_on@.len() && pos_key(
                                request.requested@[req_keys@[b]].depends_on@[j],
                            ) == k);
                    if b == a && req_keys@[b] != k {
                        let j = choose|j: int|
                            #![trigger request.requested@[req_keys@[b]].depends_on@[j]]
                            0 <= j < request.requested@[req_keys@[b]].depends_on@.len() && pos_key(
                                request.requested@[req_keys@[b]].depends_on@[j],
                            ) == k;
                        assert(pos_key(st.depends_on@[j]) == k);
                    }
                    if b < a {
                        assert(n0.contains(k));
                    }
                }
            }
        }
        a = a + 1;
    }
    proof {
        assert forall|k: u128| #[trigger] needed@.contains(k) <==> chunk_needed(base@, *request, k) by {
            if exists|k2: u128, j: int|
                #![trigger request.requested@[k2].depends_on@[j]]
                request.requested@.contains_key(k2) && 0 <= j < request.requested@[k2].depends_on@.len() && pos_key(
                    request.requested@[k2].depends_on@[j],
                ) == k {
                let (k2, j) = choose|k2: u128, j: int|
                    #![trigger request.requested@[k2].depends_on@[j]]
                    request.requested@.contains_key(k2) && 0 <= j < request.requested@[k2].depends_on@.len()
                        && pos_key(request.requested@[k2].depends_on@[j]) == k;
                assert(req_keys@.to_set().contains(k2));
                let b = choose|b: int| 0 <= b < req_keys@.len() && req_keys@[b] == k2;
                assert(request.requested@[req_keys@[b]].depends_on@[j] == request.requested@[k2].depends_on@[j]);
            }
            if request.requested@.contains_key(k) {
                assert(req_keys@.to_set().contains(k));
                let b = choose|b: int| 0 <= b < req_keys@.len() && req_keys@[b] == k;
                assert(req_keys@[b] == k);
            }
            if needed@.contains(k) && !base_set.contains(k) {
                let b = choose|b: int|
                    0 <= b < req_keys@.len() && (req_keys@[b] == k || exists|j: int|
                        #![trigger request.requested@[req_keys@[b]].depends_on@[j]]
                        0 <= j < request.requested@[req_keys@[b]].depends_on@.len() && pos_key(
                            request.requested@[req_keys@[b]].depends_on@[j],
                        ) == k);
                assert(req_keys@.to_set().contains(req_keys@[b]));
            }
        }
    }
    let loaded = crate::terrain::key_list(&universe.chunks);
    let mut r: Vec<u128> = Vec::new();
    let mut c: usize = 0;
    while c < loaded.len()
        invariant
            c <= loaded@.len(),
            loaded@.to_set() == universe.chunks@.dom(),
            loaded@.no_duplicates(),
            forall|k: u128| #[trigger] needed@.contains(k) <==> chunk_needed(base@, *request, k),
            forall|k: u128|
                #[trigger] r@.contains(k) <==> loaded@.subrange(0, c as int).contains(k) && !needed@.contains(k),
            r@.no_duplicates(),
        decreases loaded.len() - c,
    {
        let k = loaded[c];
        let ghost r0 = r@;
        proof {
            assert(loaded@.subrange(0, c + 1) =~= loaded@.subrange(0, c as int).push(k));
            assert(!loaded@.subrange(0, c as int).contains(k)) by {
                if loaded@.subrange(0, c as int).contains(k) {
                    let j = choose|j: int| 0 <= j < c && loaded@.subrange(0, c as int)[j] == k;
                    assert(loaded@[j] == loaded@[c as int]);
                }
            }
        }
        if !needed.contains(&k) {
            r.push(k);
            proof {
                assert forall|i: int, j: int| 0 <= i < j < r@.len() implies r@[i] != r@[j] by {
                    if j == r@.len() - 1 {
                        assert(r0.contains(r@[i]));
                    }
                }
            }
        }
        proof {
            assert forall|kk: u128|
                #[trigger] r@.contains(kk) <==> loaded@.subrange(0, c + 1).contains(kk) && !needed@.contains(kk) by {
                if r@.contains(kk) && kk != k {
                    let j = choose|j: int| 0 <= j < r@.len() && r@[j] == kk;
                    assert(r0[j] == kk);
                }
                if r0.contains(kk) {
                    let j = choose|j: int| 0 <= j < r0.len() && r0[j] == kk;
                    assert(r@[j] == kk);
                }
                if kk == k && !needed@.contains(kk) {
                    assert(r@[r@.len() - 1] == kk);
                }
                let s0 = loaded@.subrange(0, c as int);
                let s1 = loaded@.subrange(0, c + 1);
                if s1.contains(kk) && kk != k {
                    let j = choose|j: int| 0 <= j < s1.len() && s1[j] == kk;
                    assert(s0[j] == kk);
                }
                if s0.contains(kk) {
                    let j = choose|j: int| 0 <= j < s0.len() && s0[j] == kk;
                    assert(s1[j] == kk);
                }
                if kk == k {
                    assert(s1[c as int] == kk);
                }
            }
        }
        c = c + 1;
    }
    proof {
        assert(loaded@.subrange(0, loaded@.len() as int) =~= loaded@);
        assert forall|k: u128| #[trigger] r@.contains(k) <==> universe.chunks@.contains_key(k) && !chunk_needed(base@, *request, k) by {
            assert(loaded@.to_set().contains(k) == loaded@.contains(k));
        }
    }
    r
}


impl ChunkGenerationRequest {
    /// The origins of the requested chunks that are not loaded.
    pub fn missing_chunks(&self, universe: &Universe) -> (r: Vec<IVec3>)
        requires
            self.wf(),
        ensures
            forall|p: IVec3|
                #[trigger] r@.contains(p) <==> self.requested@.contains_key(pos_key(p))
                    && universe.chunk_at(p).is_none(),
    {
        let keys = crate::terrain::key_list(&self.requested);
        let mut r: Vec<IVec3> = Vec::new();
        let mut i: usize = 0;
        while i < keys.len()
            invariant
                i <= keys@.len(),
                self.wf(),
                keys@.to_set() == self.requested@.dom(),
                forall|p: IVec3|
                    #[trigger] r@.contains(p) <==> keys@.subrange(0, i as int).contains(pos_key(p))
                        && self.requested@.contains_key(pos_key(p)) && universe.chunk_at(p).is_none(),
            decreases keys.len() - i,
        {
            let k = keys[i];
            proof {
                assert(keys@.to_set().contains(k));
            }
            let ghost r0 = r@;
            let pos = match self.requested.get(&k) {
                Some(st) => st.pos,
                None => {
                    proof {
                        assert(false);
                    }
                    return r;
                },
            };
            if !universe.contains_chunk(&pos) {
                r.push(pos);
            }
            proof {
                let s0 = keys@.subrange(0, i as int);
                let s1 = keys@.subrange(0, i + 1);
                assert forall|p: IVec3|
                    #[trigger] r@.contains(p) <==> s1.contains(pos_key(p)) && self.requested@.contains_key(pos_key(p))
                        && universe.chunk_at(p).is_none() by {
                    if s1.contains(pos_key(p)) && pos_key(p) != k {
                        let j = choose|j: int| 0 <= j < s1.len() && s1[j] == pos_key(p);
                        assert(s0[j] == pos_key(p));
                    }
                    if s0.contains(pos_key(p)) {
                        let j = choose|j: int| 0 <= j < s0.len() && s0[j] == pos_key(p);
                        assert(s1[j] == pos_key(p));
                    }
                    if pos_key(p) == k {
                        assert(s1[i as int] == k);
                        crate::ivec::lemma_pos_key_injective(p, pos);
                    }
                    if r@.contains(p) && p != pos {
                        let j = choose|j: int| 0 <= j < r@.len() && r@[j] == p;
                        assert(r0[j] == p);
                    }
                    if r0.contains(p) {
                        let j = choose|j: int| 0 <= j < r0.len() && r0[j] == p;
                        assert(r@[j] == p);
                    }
                    if p == pos && !universe.chunk_at(pos).is_some() {
                        assert(r@[r@.len() - 1] == p);
                    }
                }
            }
            i = i + 1;
        }
        proof {
            assert(keys@.subrange(0, keys@.len() as int) =~= keys@);
            assert forall|p: IVec3| #[trigger] r@.contains(p) implies self.requested@.contains_key(pos_key(p)) by {
            }
            assert forall|p: IVec3|
                self.requested@.contains_key(pos_key(p)) && universe.chunk_at(p).is_none() implies #[trigger] r@.contains(p) by {
                assert(keys@.to_set().contains(pos_key(p)));
            }
        }
        r
    }

    /// Adopts a chunk read back from storage: it is loaded at `pos` and its
    /// request is forgotten.
    pub fn adopt_loaded(&mut self, universe: &mut Universe, pos: IVec3, chunk: Chunk)
        requires
            old(self).wf(),
            old(universe).wf(),
            chunk.wf(),
        ensures
            final(self).wf(),
            final(self).requested@ == old(self).requested@.remove(pos_key(pos)),
            final(universe).wf(),
            final(universe).chunks@ == old(universe).chunks@.insert(pos_key(pos), chunk),
    {
        universe.insert_chunk(pos, chunk);
        self.requested.remove(&pos.key());
    }
}

} // verus!

verus! {

/// Index in the block array of height `y` of column `c`.
pub open spec fn col_index(c: int, y: int) -> int {
    index_of(col_pos(c, y))
}

proof fn lemma_col_index_injective(c: int, y: int, c2: int, y2: int)
    requires
        0 <= c < CHUNK_AREA,
        0 <= y < 32,
        0 <= c2 < CHUNK_AREA,
        0 <= y2 < 32,
        col_index(c, y) == col_index(c2, y2),
    ensures
        c == c2 && y == y2,
{
    lemma_col_in_chunk(c, y);
    lemma_col_in_chunk(c2, y2);
    crate::chunk::lemma_index_injective(col_pos(c, y), col_pos(c2, y2));
    assert(c % 32 == c2 % 32 && c / 32 == c2 / 32);
    assert(c == (c / 32) * 32 + c % 32);
    assert(c2 == (c2 / 32) * 32 + c2 % 32);
}

/// Under the beam of column `c` whose bottom is just above height `y0`, the
/// blocks of `nb` made from the blocks of `ob`: the opaque block at `y0`
/// became `grass`, and each opaque block one or two below it, under opaque
/// blocks only, became `dirt`.
pub open spec fn column_buried(ob: Seq<Block>, nb: Seq<Block>, c: int, y0: int, grass: Block, dirt: Block) -> bool {
    0 <= y0 < 32 ==> {
        &&& ob[col_index(c, y0)].is_opaque() ==> nb[col_index(c, y0)] == grass
        &&& 0 <= y0 - 1 && ob[col_index(c, y0)].is_opaque() && ob[col_index(c, y0 - 1)].is_opaque()
            ==> nb[col_index(c, y0 - 1)] == dirt
        &&& 0 <= y0 - 2 && ob[col_index(c, y0)].is_opaque() && ob[col_index(c, y0 - 1)].is_opaque()
            && ob[col_index(c, y0 - 2)].is_opaque() ==> nb[col_index(c, y0 - 2)] == dirt
    }
}

proof fn lemma_bury_effect(blocks: Seq<Block>, c: int, y0: int, h: int, grass: Block, dirt: Block)
    requires
        blocks.len() == CHUNK_VOLUME,
        0 <= c < CHUNK_AREA,
        0 <= y0 < 32,
        0 <= h <= 3,
    ensures
        bury(blocks, c, y0, h, grass, dirt).len() == CHUNK_VOLUME,
        forall|i: int|
            0 <= i < CHUNK_VOLUME && (forall|t: int|
                h <= t < 3 && 0 <= y0 - t ==> i != #[trigger] col_index(c, y0 - t)) ==> #[trigger] bury(
                blocks,
                c,
                y0,
                h,
                grass,
                dirt,
            )[i] == blocks[i],
        forall|t: int|
            h <= t < 3 && 0 <= y0 - t && (forall|s: int| h <= s <= t ==> #[trigger] blocks[col_index(c, y0 - s)].is_opaque())
                ==> #[trigger] bury(blocks, c, y0, h, grass, dirt)[col_index(c, y0 - t)] == if t == 0 {
                grass
            } else {
                dirt
            },
    decreases 3 - h,
{
    lemma_bury_len(blocks, c, y0, h, grass, dirt);
    if h < 3 {
        if !(0 <= y0 - h < 32) {
            lemma_bury_effect(blocks, c, y0, h + 1, grass, dirt);
        } else if !blocks[col_index(c, y0 - h)].is_opaque() {
        } else {
            lemma_col_in_chunk(c, y0 - h);
            let nb = blocks.update(col_index(c, y0 - h), if h == 0 { grass } else { dirt });
            lemma_bury_effect(nb, c, y0, h + 1, grass, dirt);
            let r = bury(blocks, c, y0, h, grass, dirt);
            assert(r == bury(nb, c, y0, h + 1, grass, dirt));
            assert forall|t: int|
                h <= t < 3 && 0 <= y0 - t && (forall|s: int| h <= s <= t ==> #[trigger] blocks[col_index(c, y0 - s)].is_opaque())
                    implies #[trigger] r[col_index(c, y0 - t)] == if t == 0 {
                    grass
                } else {
                    dirt
                } by {
                lemma_col_in_chunk(c, y0 - t);
                if t == h {
                    assert forall|u: int| h + 1 <= u < 3 && 0 <= y0 - u implies col_index(c, y0 - t) != #[trigger] col_index(c, y0 - u) by {
                        lemma_col_in_chunk(c, y0 - u);
                        if col_index(c, y0 - t) == col_index(c, y0 - u) {
                            lemma_col_index_injective(c, y0 - t, c, y0 - u);
                        }
                    }
                } else {
                    assert forall|s: int| h + 1 <= s <= t implies #[trigger] nb[col_index(c, y0 - s)].is_opaque() by {
                        assert(blocks[col_index(c, y0 - s)].is_opaque());
                        lemma_col_in_chunk(c, y0 - s);
                        if col_index(c, y0 - s) == col_index(c, y0 - h) {
                            lemma_col_index_injective(c, y0 - s, c, y0 - h);
                        }
                    }
                }
            }
            assert forall|i: int|
                0 <= i < CHUNK_VOLUME && (forall|t: int|
                    h <= t < 3 && 0 <= y0 - t ==> i != #[trigger] col_index(c, y0 - t)) implies #[trigger] r[i]
                    == blocks[i] by {
                assert(i != col_index(c, y0 - h));
            }
        }
    }
}

proof fn lemma_biome_effect(
    blocks: Seq<Block>,
    sb: crate::sun_beams::SunBeams,
    chunk_pos: IVec3,
    grass: Block,
    dirt: Block,
    n: int,
)
    requires
        blocks.len() == CHUNK_VOLUME,
        0 <= n <= CHUNK_AREA,
    ensures
        biome_upto(blocks, sb, chunk_pos, grass, dirt, n).len() == CHUNK_VOLUME,
        forall|c: int|
            0 <= c < n ==> #[trigger] column_buried(
                blocks,
                biome_upto(blocks, sb, chunk_pos, grass, dirt, n),
                c,
                under_beam(sb, chunk_pos, c),
                grass,
                dirt,
            ),
        forall|c: int, y: int|
            n <= c < CHUNK_AREA && 0 <= y < 32 ==> #[trigger] biome_upto(blocks, sb, chunk_pos, grass, dirt, n)[col_index(
                c,
                y,
            )] == blocks[col_index(c, y)],
    decreases n,
{
    if n > 0 {
        lemma_biome_effect(blocks, sb, chunk_pos, grass, dirt, n - 1);
        let prev = biome_upto(blocks, sb, chunk_pos, grass, dirt, n - 1);
        let cur = biome_upto(blocks, sb, chunk_pos, grass, dirt, n);
        let y0 = under_beam(sb, chunk_pos, n - 1);
        if 0 <= y0 < 32 {
            lemma_bury_effect(prev, n - 1, y0, 0, grass, dirt);
            assert(cur == bury(prev, n - 1, y0, 0, grass, dirt));
            // other columns keep their blocks
            assert forall|c: int, y: int|
                0 <= c < CHUNK_AREA && c != n - 1 && 0 <= y < 32 implies #[trigger] cur[col_index(c, y)]
                    == prev[col_index(c, y)] by {
                lemma_col_in_chunk(c, y);
                assert forall|t: int| 0 <= t < 3 && 0 <= y0 - t implies col_index(c, y) != #[trigger] col_index(
                    n - 1,
                    y0 - t,
                ) by {
                    lemma_col_in_chunk(n - 1, y0 - t);
                    if col_index(c, y) == col_index(n - 1, y0 - t) {
                        lemma_col_index_injective(c, y, n - 1, y0 - t);
                    }
                }
            }
            assert forall|c: int|
                0 <= c < n implies #[trigger] column_buried(blocks, cur, c, under_beam(sb, chunk_pos, c), grass, dirt) by {
                if c < n - 1 {
                    assert(column_buried(blocks, prev, c, under_beam(sb, chunk_pos, c), grass, dirt));
                    let yc = under_beam(sb, chunk_pos, c);
                    if 0 <= yc < 32 {
                        assert(cur[col_index(c, yc)] == prev[col_index(c, yc)]);
                        if 0 <= yc - 1 {
                            assert(cur[col_index(c, yc - 1)] == prev[col_index(c, yc - 1)]);
                        }
                        if 0 <= yc - 2 {
                            assert(cur[col_index(c, yc - 2)] == prev[col_index(c, yc - 2)]);
                        }
                    }
                } else {
                    assert(prev[col_index(n - 1, y0)] == blocks[col_index(n - 1, y0)]);
                    if 0 <= y0 - 1 {
                        assert(prev[col_index(n - 1, y0 - 1)] == blocks[col_index(n - 1, y0 - 1)]);
                    }
                    if 0 <= y0 - 2 {
                        assert(prev[col_index(n - 1, y0 - 2)] == blocks[col_index(n - 1, y0 - 2)]);
                    }
                    if blocks[col_index(n - 1, y0)].is_opaque() {
                        assert(cur[col_index(n - 1, y0 - 0)] == grass);
                        if 0 <= y0 - 1 && blocks[col_index(n - 1, y0 - 1)].is_opaque() {
                            assert(cur[col_index(n - 1, y0 - 1)] == dirt);
                            if 0 <= y0 - 2 && blocks[col_index(n - 1, y0 - 2)].is_opaque() {
                                assert(cur[col_index(n - 1, y0 - 2)] == dirt);
                            }
                        }
                    }
                }
            }
        } else {
            assert(cur == prev);
        }
    }
}

/// After the biome pass, in every column whose beam ends just above a
/// height `y0` of the chunk, the opaque block at `y0` has the identifier of
/// the blueprint named Grass, and each opaque block one or two below it
/// (under opaque blocks only) has the identifier of the blueprint named Dirt.
pub proof fn law_grass_over_dirt(
    o: ChunkGenerationState,
    n: ChunkGenerationState,
    sb: crate::sun_beams::SunBeams,
    bp: Blueprints,
)
    requires
        o.wf(),
        o.chunk.is_some(),
        biome_done(o, n, sb, bp),
    ensures
        forall|c: int|
            0 <= c < CHUNK_AREA ==> {
                let y0 = #[trigger] under_beam(sb, o.pos, c);
                let ob = o.chunk.unwrap().blocks@;
                let nb = n.chunk.unwrap().blocks@;
                0 <= y0 < 32 ==> {
                    &&& ob[col_index(c, y0)].is_opaque() ==> nb[col_index(c, y0)].id == bp.blocks@[bp.first_named(
                        "Grass"@,
                    )].id
                    &&& 0 <= y0 - 1 && ob[col_index(c, y0)].is_opaque() && ob[col_index(c, y0 - 1)].is_opaque()
                        ==> nb[col_index(c, y0 - 1)].id == bp.blocks@[bp.first_named("Dirt"@)].id
                    &&& 0 <= y0 - 2 && ob[col_index(c, y0)].is_opaque() && ob[col_index(c, y0 - 1)].is_opaque()
                        && ob[col_index(c, y0 - 2)].is_opaque() ==> nb[col_index(c, y0 - 2)].id == bp.blocks@[bp.first_named(
                        "Dirt"@,
                    )].id
                }
            },
{
    let ob = o.chunk.unwrap().blocks@;
    let nb = n.chunk.unwrap().blocks@;
    let gid = bp.blocks@[bp.first_named("Grass"@)].id;
    let did = bp.blocks@[bp.first_named("Dirt"@)].id;
    lemma_biome_effect(ob, sb, o.pos, grass_block(bp), dirt_block(bp), CHUNK_AREA as int);
    assert(grass_block(bp).id == gid);
    assert(dirt_block(bp).id == did);
    assert forall|c: int| 0 <= c < CHUNK_AREA implies {
        let y0 = #[trigger] under_beam(sb, o.pos, c);
        0 <= y0 < 32 ==> {
            &&& ob[col_index(c, y0)].is_opaque() ==> nb[col_index(c, y0)].id == gid
            &&& 0 <= y0 - 1 && ob[col_index(c, y0)].is_opaque() && ob[col_index(c, y0 - 1)].is_opaque()
                ==> nb[col_index(c, y0 - 1)].id == did
            &&& 0 <= y0 - 2 && ob[col_index(c, y0)].is_opaque() && ob[col_index(c, y0 - 1)].is_opaque()
                && ob[col_index(c, y0 - 2)].is_opaque() ==> nb[col_index(c, y0 - 2)].id == did
        }
    } by {
        assert(column_buried(ob, nb, c, under_beam(sb, o.pos, c), grass_block(bp), dirt_block(bp)));
    }
}

} // verus!
