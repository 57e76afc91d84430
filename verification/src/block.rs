//! Blocks, their light levels and flags, and the blueprints they are made from.
use vstd::prelude::*;
use crate::flagbank::FlagBank;

verus! {

/// Brightest light a block can hold.
pub const MAX_LIGHT: u8 = 15;

/// Kinds of blocks with a fixed identifier.
#[derive(Debug, Clone, Copy, PartialEq, Eq, Structural, Hash)]
pub enum BlockType {
    Air,
    Stone,
    Path,
    Dirt,
    Cobblestone,
    Wood,
}

impl BlockType {
    /// Identifier of the block type, in declaration order.
    pub open spec fn id_spec(self) -> u8 {
        match self {
            BlockType::Air => 0,
            BlockType::Stone => 1,
            BlockType::Path => 2,
            BlockType::Dirt => 3,
            BlockType::Cobblestone => 4,
            BlockType::Wood => 5,
        }
    }

    pub fn id(&self) -> (r: u8)
        ensures
            r == self.id_spec(),
    {
        match self {
            BlockType::Air => 0,
            BlockType::Stone => 1,
            BlockType::Path => 2,
            BlockType::Dirt => 3,
            BlockType::Cobblestone => 4,
            BlockType::Wood => 5,
        }
    }
}

impl Default for BlockType {
    fn default() -> (r: Self)
        ensures
            r == BlockType::Air,
    {
        BlockType::Air
    }
}

/// The two kinds of light a block records.
#[derive(Debug, Clone, Copy, PartialEq, Eq, Structural, Hash)]
pub enum LightType {
    Torch,
    Sun,
}

/// Properties a block can have, stored in its flag bank.
#[derive(Debug, Clone, Copy, PartialEq, Eq, Structural, Hash)]
pub enum BlockFlag {
    Collidable,
    Opaque,
}

impl BlockFlag {
    pub open spec fn index_spec(self) -> u8 {
        match self {
            BlockFlag::Collidable => 0,
            BlockFlag::Opaque => 1,
        }
    }

    /// The bit of the flag bank that holds this flag.
    pub fn index(&self) -> (r: u8)
        ensures
            r == self.index_spec(),
            r < 16,
    {
        match self {
            BlockFlag::Collidable => 0,
            BlockFlag::Opaque => 1,
        }
    }
}

/// Flags of a chunk.
#[derive(Debug, Clone, Copy, PartialEq, Eq, Structural, Hash)]
pub enum ChunkFlag {
    Updated,
}

impl ChunkFlag {
    pub open spec fn index_spec(self) -> u8 {
        match self {
            ChunkFlag::Updated => 0,
        }
    }

    pub fn index(&self) -> (r: u8)
        ensures
            r == self.index_spec(),
            r < 16,
    {
        match self {
            ChunkFlag::Updated => 0,
        }
    }
}

/// One cubic metre of the world: its kind, its two light levels (torch light
/// in the low four bits of `light`, sun light in the high four) and its flags.
#[derive(Debug, Clone, Copy, PartialEq, Eq, Structural)]
pub struct Block {
    pub id: u8,
    pub light: u8,
    pub properties: FlagBank,
}

/// Light of kind `lt` recorded in a packed light byte.
pub open spec fn light_in(light: u8, lt: LightType) -> u8 {
    match lt {
        LightType::Torch => light & 0x0fu8,
        LightType::Sun => light >> 4u8,
    }
}

impl Block {
    /// Light of kind `lt` in this block.
    pub open spec fn light_of(self, lt: LightType) -> u8 {
        light_in(self.light, lt)
    }

    /// Whether light cannot pass through this block.
    pub open spec fn is_opaque(self) -> bool {
        self.properties@.contains(BlockFlag::Opaque.index_spec())
    }

    pub fn get_light(&self, lt: LightType) -> (r: u8)
        ensures
            r == self.light_of(lt),
            r <= MAX_LIGHT,
    {
        proof {
            lemma_light_bounds(self.light);
        }
        match lt {
            LightType::Torch => self.light & 0x0fu8,
            LightType::Sun => self.light >> 4u8,
        }
    }

    /// Sets the light of kind `lt` to `v`, leaving the other kind and the rest
    /// of the block as they were.
    pub fn set_light(&mut self, lt: LightType, v: u8)
        requires
            v <= MAX_LIGHT,
        ensures
            final(self).light_of(lt) == v,
            forall|o: LightType| o != lt ==> final(self).light_of(o) == old(self).light_of(o),
            final(self).id == old(self).id,
            final(self).properties == old(self).properties,
    {
        let l = self.light;
        proof {
            lemma_set_light_bits(l, v);
        }
        match lt {
            LightType::Torch => {
                self.light = (l & 0xf0u8) | v;
            },
            LightType::Sun => {
                self.light = (l & 0x0fu8) | (v << 4u8);
            },
        }
    }

    /// Whether light cannot pass through this block.
    pub fn opaque(&self) -> (r: bool)
        ensures
            r == self.is_opaque(),
    {
        self.properties.check(BlockFlag::Opaque.index())
    }

    /// A block made from a blueprint: its identifier, no light, and the
    /// blueprint's flags.
    pub fn new(bp: &BlockBlueprint) -> (r: Block)
        requires
            bp.wf(),
        ensures
            r.id == bp.id,
            r.light == 0,
            forall|f: u8| r.properties@.contains(f) <==> bp.flags@.contains(f),
            r == block_from(*bp),
    {
        let mut properties = FlagBank::empty();
        let mut i: usize = 0;
        while i < bp.flags.len()
            invariant
                bp.wf(),
                i <= bp.flags.len(),
                forall|f: u8|
                    properties@.contains(f) <==> exists|j: int| 0 <= j < i && bp.flags@[j] == f,
            decreases bp.flags.len() - i,
        {
            let f = bp.flags[i];
            properties.set(f);
            proof {
                assert forall|g: u8|
                    properties@.contains(g) <==> exists|j: int| 0 <= j < i + 1 && bp.flags@[j] == g by {
                    if properties@.contains(g) && g != f {
                        let j = choose|j: int| 0 <= j < i && bp.flags@[j] == g;
                        assert(0 <= j < i + 1 && bp.flags@[j] == g);
                    }
                    if exists|j: int| 0 <= j < i + 1 && bp.flags@[j] == g {
                        let j = choose|j: int| 0 <= j < i + 1 && bp.flags@[j] == g;
                        if j < i {
                            assert(0 <= j < i && bp.flags@[j] == g);
                        }
                    }
                    if g == f {
                        assert(0 <= i < i + 1 && bp.flags@[i as int] == g);
                    }
                }
            }
            i = i + 1;
        }
        proof {
            assert forall|g: u8| properties@.contains(g) <==> bp.flags@.contains(g) by {
                if properties@.contains(g) {
                    let j = choose|j: int| 0 <= j < i && bp.flags@[j] == g;
                    assert(bp.flags@[j] == g);
                }
                if bp.flags@.contains(g) {
                    let j = choose|j: int| 0 <= j < bp.flags@.len() && bp.flags@[j] == g;
                    assert(0 <= j < i && bp.flags@[j] == g);
                }
            }
        }
        let r = Block { id: bp.id, light: 0, properties };
        proof {
            assert(made_from(r, *bp));
            lemma_made_from_unique(r, block_from(*bp), *bp);
        }
        r
    }
}

/// `b` is what a blueprint makes: its identifier, no light, and exactly its
/// flags.
pub open spec fn made_from(b: Block, bp: BlockBlueprint) -> bool {
    &&& b.id == bp.id
    &&& b.light == 0
    &&& forall|f: u8| b.properties@.contains(f) <==> bp.flags@.contains(f)
}

/// The block a blueprint makes.
pub open spec fn block_from(bp: BlockBlueprint) -> Block {
    choose|b: Block| made_from(b, bp)
}

/// A blueprint makes one block only.
pub proof fn lemma_made_from_unique(a: Block, b: Block, bp: BlockBlueprint)
    requires
        made_from(a, bp),
        made_from(b, bp),
    ensures
        a == b,
{
    assert(a.properties@ =~= b.properties@);
    FlagBank::lemma_view_injective(a.properties, b.properties);
}

impl Default for Block {
    fn default() -> (r: Self)
        ensures
            r.id == 0,
            r.light == 0,
            r.properties@ == Set::<u8>::empty(),
    {
        Block { id: 0, light: 0, properties: FlagBank::empty() }
    }
}

pub proof fn lemma_light_bounds(l: u8)
    ensures
        l & 0x0fu8 <= 15,
        l >> 4u8 <= 15,
{
    assert(l & 0x0fu8 <= 15 && l >> 4u8 <= 15) by (bit_vector);
}

proof fn lemma_set_light_bits(l: u8, v: u8)
    requires
        v <= 15,
    ensures
        ((l & 0xf0u8) | v) & 0x0fu8 == v,
        ((l & 0xf0u8) | v) >> 4u8 == l >> 4u8,
        ((l & 0x0fu8) | (v << 4u8)) & 0x0fu8 == l & 0x0fu8,
        ((l & 0x0fu8) | (v << 4u8)) >> 4u8 == v,
{
    assert(((l & 0xf0u8) | v) & 0x0fu8 == v && ((l & 0xf0u8) | v) >> 4u8 == l >> 4u8 && ((l
        & 0x0fu8) | (v << 4u8)) & 0x0fu8 == l & 0x0fu8 && ((l & 0x0fu8) | (v << 4u8)) >> 4u8
        == v) by (bit_vector)
        requires
            v <= 15,
    ;
}

/// The description of a kind of block: identifier, name, brightness and flags.
#[derive(Debug, Clone)]
pub struct BlockBlueprint {
    pub id: u8,
    pub name: String,
    pub light_level: u8,
    pub flags: Vec<u8>,
}

impl BlockBlueprint {
    /// Brightness within the light range and flags within the flag bank.
    pub open spec fn wf(&self) -> bool {
        &&& self.light_level <= MAX_LIGHT
        &&& forall|i: int| 0 <= i < self.flags@.len() ==> self.flags@[i] < 16
    }

    /// Whether blocks of this kind emit light.
    pub fn is_light_source(&self) -> (r: bool)
        ensures
            r == (self.light_level > 0),
    {
        self.light_level > 0
    }
}

/// The table of all kinds of blocks, indexed by identifier.
#[derive(Debug, Clone)]
pub struct Blueprints {
    pub blocks: Vec<BlockBlueprint>,
}

impl Blueprints {
    /// Entry `i` describes identifier `i`, and every entry is well formed.
    pub open spec fn wf(&self) -> bool {
        &&& self.blocks@.len() <= 256
        &&& forall|i: int|
            0 <= i < self.blocks@.len() ==> self.blocks@[i].id == i && #[trigger] self.blocks@[i].wf()
    }

    /// Whether a blueprint of the given name exists.
    pub open spec fn has_named(&self, name: Seq<char>) -> bool {
        exists|i: int| 0 <= i < self.blocks@.len() && #[trigger] self.blocks@[i].name@ == name
    }

    /// Index of the first blueprint with the given name.
    pub open spec fn first_named(&self, name: Seq<char>) -> int {
        choose|i: int|
            0 <= i < self.blocks@.len() && self.blocks@[i].name@ == name && forall|j: int|
                0 <= j < i ==> #[trigger] self.blocks@[j].name@ != name
    }

    /// The blueprint of identifier `id`.
    pub fn get(&self, id: u8) -> (r: &BlockBlueprint)
        requires
            (id as int) < self.blocks@.len(),
        ensures
            *r == self.blocks@[id as int],
    {
        &self.blocks[id as usize]
    }

    /// The first blueprint with the given name, if there is one.
    pub fn get_named_checked(&self, name: &str) -> (r: Option<&BlockBlueprint>)
        ensures
            match r {
                Some(b) => self.has_named(name@) && 0 <= self.first_named(name@) < self.blocks@.len()
                    && *b == self.blocks@[self.first_named(name@)],
                None => !self.has_named(name@),
            },
    {
        let wanted = name.to_owned();
        let mut i: usize = 0;
        while i < self.blocks.len()
            invariant
                wanted@ == name@,
                i <= self.blocks@.len(),
                forall|j: int| 0 <= j < i ==> #[trigger] self.blocks@[j].name@ != name@,
            decreases self.blocks.len() - i,
        {
            if self.blocks[i].name == wanted {
                proof {
                    assert(self.has_named(name@));
                    let k = self.first_named(name@);
                    assert(0 <= i < self.blocks@.len() && self.blocks@[i as int].name@ == name@
                        && forall|j: int| 0 <= j < i ==> #[trigger] self.blocks@[j].name@ != name@);
                    assert(0 <= k < self.blocks@.len() && self.blocks@[k].name@ == name@);
                    if k < i {
                        assert(self.blocks@[k].name@ != name@);
                    }
                    if k > i {
                        assert(self.blocks@[i as int].name@ != name@);
                    }
                }
                return Some(&self.blocks[i]);
            }
            i = i + 1;
        }
        proof {
            if self.has_named(name@) {
                let k = choose|k: int| 0 <= k < self.blocks@.len() && #[trigger] self.blocks@[k].name@ == name@;
                assert(self.blocks@[k].name@ != name@);
            }
        }
        None
    }

    /// The first blueprint with the given name.
    pub fn get_named(&self, name: &str) -> (r: &BlockBlueprint)
        requires
            self.has_named(name@),
        ensures
            0 <= self.first_named(name@) < self.blocks@.len(),
            *r == self.blocks@[self.first_named(name@)],
            r.name@ == name@,
    {
        let wanted = name.to_owned();
        let mut i: usize = 0;
        while i < self.blocks.len()
            invariant
                wanted@ == name@,
                self.has_named(name@),
                i <= self.blocks@.len(),
                forall|j: int| 0 <= j < i ==> #[trigger] self.blocks@[j].name@ != name@,
            decreases self.blocks.len() - i,
        {
            if self.blocks[i].name == wanted {
                proof {
                    let k = self.first_named(name@);
                    assert(0 <= i < self.blocks@.len() && self.blocks@[i as int].name@ == name@
                        && forall|j: int| 0 <= j < i ==> #[trigger] self.blocks@[j].name@ != name@);
                    assert(0 <= k < self.blocks@.len() && self.blocks@[k].name@ == name@);
                    if k < i {
                        assert(self.blocks@[k].name@ != name@);
                    }
                    if k > i {
                        assert(self.blocks@[i as int].name@ != name@);
                    }
                }
                return &self.blocks[i];
            }
            i = i + 1;
        }
        proof {
            let k = choose|k: int| 0 <= k < self.blocks@.len() && #[trigger] self.blocks@[k].name@ == name@;
            assert(self.blocks@[k].name@ != name@);
        }
        &self.blocks[0]
    }
}

} // verus!
