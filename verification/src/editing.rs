//! The block edits a player's button presses ask for, given the voxel the
//! player aims at.
use vstd::prelude::*;
use crate::block::{block_from, Block, Blueprints};
use crate::hotbar::PlayerHand;
use crate::ivec::IVec3;
use crate::terrain::UniverseChange;

verus! {

/// A button press of the player that may edit the terrain.
#[derive(Debug, Clone, Copy, PartialEq, Eq, Structural)]
pub enum EditInput {
    /// The place button, pressed or released.
    Placing(bool),
    /// The mine button, pressed or released.
    Mining(bool),
}

/// The edit one press asks for: placing the block in hand against the face
/// of the aimed voxel (unless that spot overlaps the player), or removing
/// the aimed voxel.
pub open spec fn edit_of(input: EditInput, hand: PlayerHand, hit: IVec3, normal: IVec3, blocked: bool, bp: Blueprints) -> Option<UniverseChange> {
    match input {
        EditInput::Placing(true) => match hand.block_id {
            Some(id) => if blocked {
                None
            } else {
                Some(
                    UniverseChange::Add {
                        pos: IVec3 {
                            x: (hit.x + normal.x) as i32,
                            y: (hit.y + normal.y) as i32,
                            z: (hit.z + normal.z) as i32,
                        },
                        block: block_from(bp.blocks@[id as int]),
                    },
                )
            },
            None => None,
        },
        EditInput::Mining(true) => Some(UniverseChange::Remove { pos: hit }),
        _ => None,
    }
}

/// The edits the first `n` presses ask for, in order.
pub open spec fn edits_of(inputs: Seq<EditInput>, n: int, hand: PlayerHand, hit: IVec3, normal: IVec3, blocked: bool, bp: Blueprints) -> Seq<UniverseChange>
    decreases n,
{
    if n <= 0 {
        Seq::empty()
    } else {
        let prev = edits_of(inputs, n - 1, hand, hit, normal, blocked, bp);
        match edit_of(inputs[n - 1], hand, hit, normal, blocked, bp) {
            Some(c) => prev.push(c),
            None => prev,
        }
    }
}

/// The edits a buffer of presses asks for, in order, when the player aims
/// at the voxel `hit` through its face of normal `normal`; `blocked` tells
/// whether the spot in front of that face overlaps the player.
pub fn terrain_edits(
    inputs: &Vec<EditInput>,
    hand: &PlayerHand,
    hit: IVec3,
    normal: IVec3,
    blocked: bool,
    bp: &Blueprints,
) -> (r: Vec<UniverseChange>)
    requires
        bp.wf(),
        hand.block_id matches Some(id) ==> (id as int) < bp.blocks@.len(),
        i32::MIN <= hit.x + normal.x <= i32::MAX,
        i32::MIN <= hit.y + normal.y <= i32::MAX,
        i32::MIN <= hit.z + normal.z <= i32::MAX,
    ensures
        r@ == edits_of(inputs@, inputs@.len() as int, *hand, hit, normal, blocked, *bp),
{
    let mut r: Vec<UniverseChange> = Vec::new();
    let mut i: usize = 0;
    while i < inputs.len()
        invariant
            i <= inputs@.len(),
            bp.wf(),
            hand.block_id matches Some(id) ==> (id as int) < bp.blocks@.len(),
            i32::MIN <= hit.x + normal.x <= i32::MAX,
            i32::MIN <= hit.y + normal.y <= i32::MAX,
            i32::MIN <= hit.z + normal.z <= i32::MAX,
            r@ == edits_of(inputs@, i as int, *hand, hit, normal, blocked, *bp),
        decreases inputs.len() - i,
    {
        match inputs[i] {
            EditInput::Placing(true) => {
                match hand.block_id {
                    Some(id) => {
                        if !blocked {
                            proof {
                                assert(bp.blocks@[id as int].wf());
                            }
                            let block: Block = Block::new(bp.get(id));
                            r.push(UniverseChange::Add { pos: hit.add(&normal), block });
                        }
                    },
                    None => {},
                }
            },
            EditInput::Mining(true) => {
                r.push(UniverseChange::Remove { pos: hit });
            },
            _ => {},
        }
        i = i + 1;
    }
    r
}

} // verus!

verus! {

/// Every edit that presses ask for is at the aimed voxel or in front of it:
/// a placement goes at `hit + normal` on all three axes, with the block the
/// hand holds as its blueprint makes it; a removal takes the aimed voxel.
pub proof fn law_edits_at_the_aimed_face(
    inputs: Seq<EditInput>,
    n: int,
    hand: PlayerHand,
    hit: IVec3,
    normal: IVec3,
    blocked: bool,
    bp: Blueprints,
)
    requires
        0 <= n <= inputs.len(),
        i32::MIN <= hit.x + normal.x <= i32::MAX,
        i32::MIN <= hit.y + normal.y <= i32::MAX,
        i32::MIN <= hit.z + normal.z <= i32::MAX,
    ensures
        edits_of(inputs, n, hand, hit, normal, blocked, bp).len() <= n,
        forall|j: int|
            0 <= j < edits_of(inputs, n, hand, hit, normal, blocked, bp).len() ==> match #[trigger] edits_of(
                inputs,
                n,
                hand,
                hit,
                normal,
                blocked,
                bp,
            )[j] {
                UniverseChange::Add { pos, block } => {
                    &&& pos.x == hit.x + normal.x
                    &&& pos.y == hit.y + normal.y
                    &&& pos.z == hit.z + normal.z
                    &&& !blocked
                    &&& hand.block_id is Some
                    &&& block == block_from(bp.blocks@[hand.block_id.unwrap() as int])
                },
                UniverseChange::Remove { pos } => pos == hit,
            },
    decreases n,
{
    if n > 0 {
        law_edits_at_the_aimed_face(inputs, n - 1, hand, hit, normal, blocked, bp);
        let prev = edits_of(inputs, n - 1, hand, hit, normal, blocked, bp);
        let cur = edits_of(inputs, n, hand, hit, normal, blocked, bp);
        assert forall|j: int| 0 <= j < cur.len() implies match #[trigger] cur[j] {
            UniverseChange::Add { pos, block } => {
                &&& pos.x == hit.x + normal.x
                &&& pos.y == hit.y + normal.y
                &&& pos.z == hit.z + normal.z
                &&& !blocked
                &&& hand.block_id is Some
                &&& block == block_from(bp.blocks@[hand.block_id.unwrap() as int])
            },
            UniverseChange::Remove { pos } => pos == hit,
        } by {
            if j < prev.len() {
                assert(cur[j] == prev[j]);
            }
        }
    }
}

} // verus!
