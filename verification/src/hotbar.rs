//! The hotbar: the slots of blocks the player picks from, and the hand that
//! holds the picked block.
use vstd::prelude::*;
use crate::block::Blueprints;

verus! {

/// Number of slots of the hotbar.
pub const HOTBAR_SLOTS: i32 = 9;

/// Tiles per row of the texture atlas.
pub const ATLAS_COLUMNS: usize = 16;

/// The slot of the hotbar the player is on and the block in hand.
#[derive(Debug, Clone, Copy, PartialEq, Eq, Structural, Default)]
pub struct PlayerHand {
    pub hotbar_index: i32,
    pub block_id: Option<u8>,
}

/// One slot of the hotbar.
#[derive(Debug, Clone, Copy, PartialEq, Eq, Structural, Default)]
pub struct HotbarSlot {
    pub index: i32,
    pub block_id: Option<u8>,
}

/// The block of the first slot with index `index`, if any slot has it.
pub open spec fn slot_block(slots: Seq<HotbarSlot>, index: i32) -> Option<Option<u8>>
    decreases slots.len(),
{
    if slots.len() == 0 {
        None
    } else if slots[0].index == index {
        Some(slots[0].block_id)
    } else {
        slot_block(slots.drop_first(), index)
    }
}

/// The block of the first slot with index `index`, if any slot has it.
fn find_slot(slots: &Vec<HotbarSlot>, index: i32) -> (r: Option<Option<u8>>)
    ensures
        r == slot_block(slots@, index),
{
    let mut i: usize = 0;
    proof {
        assert(slots@.subrange(0, slots@.len() as int) =~= slots@);
    }
    while i < slots.len()
        invariant
            i <= slots@.len(),
            slot_block(slots@.subrange(i as int, slots@.len() as int), index) == slot_block(slots@, index),
        decreases slots.len() - i,
    {
        let ghost rest = slots@.subrange(i as int, slots@.len() as int);
        proof {
            assert(rest.drop_first() =~= slots@.subrange(i + 1, slots@.len() as int));
        }
        if slots[i].index == index {
            return Some(slots[i].block_id);
        }
        i = i + 1;
    }
    proof {
        assert(slots@.subrange(i as int, slots@.len() as int) =~= Seq::<HotbarSlot>::empty());
    }
    None
}

impl PlayerHand {
    /// The mouse wheel turned one notch (`forward` for a non-negative
    /// amount): the hand moves to the next or previous slot, wrapping
    /// around the hotbar, and takes the block of that slot if a slot has
    /// that index.
    pub fn scroll(&mut self, forward: bool, slots: &Vec<HotbarSlot>)
        requires
            i32::MIN < old(self).hotbar_index < i32::MAX,
        ensures
            final(self).hotbar_index == (old(self).hotbar_index + if forward { 1int } else { -1int }) % 9,
            final(self).block_id == match slot_block(slots@, final(self).hotbar_index) {
                Some(b) => b,
                None => old(self).block_id,
            },
    {
        let step: i32 = if forward {
            1
        } else {
            -1
        };
        let moved = self.hotbar_index + step;
        self.hotbar_index = match moved.checked_rem_euclid(HOTBAR_SLOTS) {
            Some(v) => v,
            None => 0,
        };
        match find_slot(slots, self.hotbar_index) {
            Some(b) => {
                self.block_id = b;
            },
            None => {},
        }
    }

    /// The key of `slot` was pressed: the hand moves to that slot and takes
    /// its block.
    pub fn select(&mut self, slot: &HotbarSlot)
        ensures
            final(self).hotbar_index == slot.index,
            final(self).block_id == slot.block_id,
    {
        self.block_id = slot.block_id;
        self.hotbar_index = slot.index;
    }

    /// Whether `slot` is the slot the hand is on.
    pub fn is_on(&self, slot: &HotbarSlot) -> (r: bool)
        ensures
            r == (self.hotbar_index == slot.index),
    {
        self.hotbar_index == slot.index
    }
}

/// The digit key of the slot of index `index`: keys `1` to `9` for the
/// slots `0` to `8`, key `0` for slot `9`; none for another index.
pub fn slot_digit(index: i32) -> (r: Option<u8>)
    ensures
        r == if 0 <= index <= 9 {
            Some(((index + 1) % 10) as u8)
        } else {
            None::<u8>
        },
{
    if 0 <= index && index <= 9 {
        Some(((index + 1) % 10) as u8)
    } else {
        None
    }
}

/// The index in the texture atlas of the tile at column `x` and row `y`.
pub fn atlas_index(x: usize, y: usize) -> (r: usize)
    requires
        x + y * 16 <= usize::MAX,
    ensures
        r == x + y * 16,
{
    x + y * ATLAS_COLUMNS
}

/// The name of the block offered in slot `i` of the hotbar.
pub open spec fn hotbar_name_spec(i: int) -> Seq<char> {
    if i == 0 {
        "Stone"@
    } else if i == 1 {
        "Cobblestone"@
    } else if i == 2 {
        "Brick"@
    } else if i == 3 {
        "Dirt"@
    } else if i == 4 {
        "Oak Planks"@
    } else if i == 5 {
        "Wood"@
    } else if i == 6 {
        "Grass"@
    } else if i == 7 {
        "Glowstone"@
    } else {
        "Diamond Block"@
    }
}

/// The name of the block offered in slot `i` of the hotbar.
fn hotbar_name(i: usize) -> (r: &'static str)
    requires
        i < 9,
    ensures
        r@ == hotbar_name_spec(i as int),
{
    if i == 0 {
        "Stone"
    } else if i == 1 {
        "Cobblestone"
    } else if i == 2 {
        "Brick"
    } else if i == 3 {
        "Dirt"
    } else if i == 4 {
        "Oak Planks"
    } else if i == 5 {
        "Wood"
    } else if i == 6 {
        "Grass"
    } else if i == 7 {
        "Glowstone"
    } else {
        "Diamond Block"
    }
}

/// Slot `i` of the hotbar: the first block of the blueprints with the name
/// offered there, if any.
pub open spec fn hotbar_slot_spec(bp: Blueprints, i: int) -> HotbarSlot {
    HotbarSlot {
        index: i as i32,
        block_id: if bp.has_named(hotbar_name_spec(i)) {
            Some(bp.blocks@[bp.first_named(hotbar_name_spec(i))].id)
        } else {
            None
        },
    }
}

/// The nine slots of the hotbar, in order.
pub fn hotbar_slots(bp: &Blueprints) -> (r: Vec<HotbarSlot>)
    ensures
        r@.len() == 9,
        forall|i: int| 0 <= i < 9 ==> #[trigger] r@[i] == hotbar_slot_spec(*bp, i),
{
    let mut r: Vec<HotbarSlot> = Vec::new();
    let mut i: usize = 0;
    while i < 9
        invariant
            i <= 9,
            r@.len() == i,
            forall|j: int| 0 <= j < i ==> #[trigger] r@[j] == hotbar_slot_spec(*bp, j),
        decreases 9 - i,
    {
        let name = hotbar_name(i);
        let block_id = match bp.get_named_checked(name) {
            Some(b) => Some(b.id),
            None => None,
        };
        r.push(HotbarSlot { index: i as i32, block_id });
        i = i + 1;
    }
    r
}

/// The identifiers of the first `n` blueprints of `s`, in order, but those
/// named `Air`.
pub open spec fn choices_upto(s: Seq<crate::block::BlockBlueprint>, n: int) -> Seq<u8>
    decreases n,
{
    if n <= 0 {
        Seq::empty()
    } else {
        let prev = choices_upto(s, n - 1);
        if s[n - 1].name@ == "Air"@ {
            prev
        } else {
            prev.push(s[n - 1].id)
        }
    }
}

/// The blocks a player can pick for the hand: every blueprint but air, by
/// increasing identifier.
pub fn hand_choices(bp: &Blueprints) -> (r: Vec<u8>)
    requires
        bp.wf(),
    ensures
        r@ == choices_upto(bp.blocks@, bp.blocks@.len() as int),
        forall|i: int, j: int| 0 <= i < j < r@.len() ==> r@[i] < r@[j],
{
    let air = "Air".to_owned();
    let mut r: Vec<u8> = Vec::new();
    let mut i: usize = 0;
    while i < bp.blocks.len()
        invariant
            bp.wf(),
            air@ == "Air"@,
            i <= bp.blocks@.len(),
            r@ == choices_upto(bp.blocks@, i as int),
            forall|a: int, b: int| 0 <= a < b < r@.len() ==> r@[a] < r@[b],
            forall|a: int| 0 <= a < r@.len() ==> r@[a] < i,
        decreases bp.blocks.len() - i,
    {
        if bp.blocks[i].name != air {
            proof {
                assert(bp.blocks@[i as int].wf());
                assert(bp.blocks@[i as int].id == i);
            }
            r.push(bp.blocks[i].id);
        }
        i = i + 1;
    }
    r
}

/// The hotbar offers, slot by slot, the blocks named Stone, Cobblestone,
/// Brick, Dirt, Oak Planks, Wood, Grass, Glowstone and Diamond Block: slot
/// `i` holds the first blueprint with the `i`-th of these names, or nothing
/// when no blueprint has it.
pub proof fn law_hotbar_offers_the_named_blocks(bp: Blueprints, slots: Seq<HotbarSlot>)
    requires
        slots.len() == 9,
        forall|i: int| 0 <= i < 9 ==> #[trigger] slots[i] == hotbar_slot_spec(bp, i),
    ensures
        forall|i: int|
            0 <= i < 9 ==> {
                let name = seq![
                    "Stone"@,
                    "Cobblestone"@,
                    "Brick"@,
                    "Dirt"@,
                    "Oak Planks"@,
                    "Wood"@,
                    "Grass"@,
                    "Glowstone"@,
                    "Diamond Block"@,
                ][i];
                &&& #[trigger] slots[i].index == i
                &&& slots[i].block_id == if bp.has_named(name) {
                    Some(bp.blocks@[bp.first_named(name)].id)
                } else {
                    None
                }
            },
{
    let names = seq![
        "Stone"@,
        "Cobblestone"@,
        "Brick"@,
        "Dirt"@,
        "Oak Planks"@,
        "Wood"@,
        "Grass"@,
        "Glowstone"@,
        "Diamond Block"@,
    ];
    assert forall|i: int| 0 <= i < 9 implies hotbar_name_spec(i) == names[i] by {
        assert(slots[i] == hotbar_slot_spec(bp, i));
    }
}

/// Scrolling one notch forward and one back brings the hand back to the
/// slot it was on.
pub proof fn law_scroll_forward_back(index: int, forward: int, back: int)
    requires
        0 <= index < 9,
        forward == (index + 1) % 9,
        back == (forward - 1) % 9,
    ensures
        back == index,
{
}

} // verus!
