use mcrs::block::{Block, BlockBlueprint, BlockFlag, Blueprints, LightType};
use mcrs::chunk::{xyz2idx, Chunk};
use mcrs::editing::{terrain_edits, EditInput};
use mcrs::hotbar::PlayerHand;
use mcrs::ivec::{IVec2, IVec3};
use mcrs::lighting::{dir, propagate_darkness, propagate_light_chunk, LightSource};
use mcrs::sun_beams::{SunBeam, SunBeams};
use mcrs::terrain::{
    add_block, apply_chunk_sources, apply_lighting_sources, apply_terrain_change, apply_terrain_changes,
    group_leaked_light_into_chunks, is_pos_safe, key_list, remove_block, ByLight, LightSources, UniverseChange,
    UniverseChanges,
};
use mcrs::universe::Universe;
use std::collections::HashMap;

fn blueprint(id: u8, name: &str, light_level: u8, flags: Vec<u8>) -> BlockBlueprint {
    BlockBlueprint { id, name: name.to_string(), light_level, flags }
}

fn blueprints() -> Blueprints {
    let solid = vec![BlockFlag::Collidable.index(), BlockFlag::Opaque.index()];
    Blueprints {
        blocks: vec![
            blueprint(0, "Air", 0, vec![]),
            blueprint(1, "Stone", 0, solid.clone()),
            blueprint(2, "Grass", 0, solid.clone()),
            blueprint(3, "Dirt", 0, solid.clone()),
            blueprint(4, "Torch", 14, vec![]),
        ],
    }
}

fn torch_light(u: &Universe, p: IVec3) -> u8 {
    u.read_chunk(&p).unwrap().get_light(LightType::Torch)
}

fn flat_world(bp: &Blueprints) -> Universe {
    let mut u = Universe::new();
    u.insert_chunk(IVec3::new(0, 0, 0), Chunk::flatland(bp));
    u
}

#[test]
fn directions_in_order() {
    assert_eq!(dir(0), IVec3::new(1, 0, 0));
    assert_eq!(dir(1), IVec3::new(0, 1, 0));
    assert_eq!(dir(2), IVec3::new(0, 0, 1));
    assert_eq!(dir(3), IVec3::new(-1, 0, 0));
    assert_eq!(dir(4), IVec3::new(0, -1, 0));
    assert_eq!(dir(5), IVec3::new(0, 0, -1));
}

#[test]
fn light_fades_one_level_per_block() {
    let mut chunk = Chunk::empty();
    let src = IVec3::new(16, 16, 16);
    chunk.set_block_light(src, LightType::Torch, 14);
    let leaks = propagate_light_chunk(&mut chunk.blocks, vec![src], LightType::Torch);
    assert!(leaks.is_empty());
    let at = |p: IVec3| chunk.read_block(p).get_light(LightType::Torch);
    assert_eq!(at(src), 14);
    assert_eq!(at(IVec3::new(17, 16, 16)), 13);
    assert_eq!(at(IVec3::new(16, 16, 20)), 10);
    assert_eq!(at(IVec3::new(18, 18, 18)), 8);
    assert_eq!(at(IVec3::new(16, 16, 30)), 0);
    assert_eq!(at(IVec3::new(16, 16, 29)), 1);
    assert_eq!(chunk.read_block(IVec3::new(17, 16, 16)).get_light(LightType::Sun), 0);
}

#[test]
fn light_stops_at_opaque_blocks_and_leaks_out() {
    let bp = blueprints();
    let mut chunk = Chunk::empty();
    let wall = IVec3::new(2, 5, 5);
    chunk.set_block(wall, bp.get(1));
    let src = IVec3::new(0, 5, 5);
    chunk.set_block_light(src, LightType::Sun, 15);
    let leaks = propagate_light_chunk(&mut chunk.blocks, vec![src], LightType::Sun);
    assert_eq!(chunk.read_block(wall).get_light(LightType::Sun), 0);
    assert_eq!(chunk.read_block(IVec3::new(1, 5, 5)).get_light(LightType::Sun), 14);
    assert!(leaks.contains(&LightSource { pos: IVec3::new(-1, 5, 5), brightness: 14 }));
    assert!(leaks.contains(&LightSource { pos: IVec3::new(-1, 6, 5), brightness: 13 }));
    assert!(leaks.iter().all(|l| l.pos.x == -1 || l.pos.y == -1 || l.pos.z == -1 || l.pos.x == 32
        || l.pos.y == 32 || l.pos.z == 32));
}

#[test]
fn chunk_sources_light_the_chunk() {
    let mut chunk = Chunk::empty();
    let sources = vec![LightSource { pos: IVec3::new(31, 0, 0), brightness: 3 }];
    let leaks = apply_chunk_sources(&mut chunk, &sources, LightType::Torch);
    assert_eq!(chunk.version, 1);
    assert_eq!(chunk.read_block(IVec3::new(31, 0, 0)).get_light(LightType::Torch), 3);
    assert_eq!(chunk.read_block(IVec3::new(30, 0, 0)).get_light(LightType::Torch), 2);
    assert_eq!(chunk.read_block(IVec3::new(28, 0, 0)).get_light(LightType::Torch), 0);
    assert!(leaks.contains(&LightSource { pos: IVec3::new(32, 0, 0), brightness: 2 }));
    assert!(leaks.contains(&LightSource { pos: IVec3::new(31, -1, 0), brightness: 2 }));
}

#[test]
fn leaked_light_is_grouped_by_chunk() {
    let u = Universe::new();
    let mut ls = LightSources::new();
    let leaked = ByLight {
        torch: vec![
            LightSource { pos: IVec3::new(40, 5, -1), brightness: 7 },
            LightSource { pos: IVec3::new(33, 6, -2), brightness: 6 },
        ],
        sun: vec![LightSource { pos: IVec3::new(1, 1, 1), brightness: 15 }],
    };
    group_leaked_light_into_chunks(&u, leaked, &mut ls);
    let key = IVec3::new(32, 0, -32).key();
    let group = &ls.chunked_sources.torch[&key].sources;
    assert_eq!(
        group,
        &vec![
            LightSource { pos: IVec3::new(8, 5, 31), brightness: 7 },
            LightSource { pos: IVec3::new(1, 6, 30), brightness: 6 },
        ]
    );
    assert_eq!(ls.chunked_sources.sun[&IVec3::new(0, 0, 0).key()].sources.len(), 1);
    assert_eq!(ls.chunked_sources.get(LightType::Sun).len(), 1);
    let mut keys = key_list(&ls.chunked_sources.torch);
    keys.sort();
    assert_eq!(keys, vec![key]);
}

#[test]
fn lighting_sources_wait_for_their_chunk() {
    let mut u = Universe::new();
    u.insert_chunk(IVec3::new(0, 0, 0), Chunk::empty());
    let mut ls = LightSources::new();
    ls.leaked_sources.torch.push(LightSource { pos: IVec3::new(5, 5, 5), brightness: 10 });
    ls.leaked_sources.torch.push(LightSource { pos: IVec3::new(40, 5, 5), brightness: 10 });
    apply_lighting_sources(&mut u, &mut ls);
    assert_eq!(torch_light(&u, IVec3::new(5, 5, 5)), 10);
    assert_eq!(torch_light(&u, IVec3::new(5, 5, 8)), 7);
    assert!(ls.leaked_sources.torch.is_empty());
    assert!(ls.leaked_sources.sun.is_empty());
    let waiting = &ls.chunked_sources.torch[&IVec3::new(32, 0, 0).key()].sources;
    assert_eq!(waiting[0], LightSource { pos: IVec3::new(8, 5, 5), brightness: 10 });
    assert!(!ls.chunked_sources.torch.contains_key(&IVec3::new(0, 0, 0).key()));
}

#[test]
fn darkness_puts_out_a_torch() {
    let bp = blueprints();
    let mut u = Universe::new();
    u.insert_chunk(IVec3::new(0, 0, 0), Chunk::empty());
    let mut ls = LightSources::new();
    ls.leaked_sources.torch.push(LightSource { pos: IVec3::new(10, 10, 10), brightness: 14 });
    apply_lighting_sources(&mut u, &mut ls);
    assert_eq!(torch_light(&u, IVec3::new(10, 10, 12)), 12);
    let relit = propagate_darkness(&mut u, &bp, IVec3::new(10, 10, 10), LightType::Torch);
    assert_eq!(torch_light(&u, IVec3::new(10, 10, 10)), 0);
    assert_eq!(torch_light(&u, IVec3::new(10, 10, 12)), 0);
    assert_eq!(torch_light(&u, IVec3::new(10, 15, 10)), 0);
    assert!(relit.iter().all(|l| l.brightness <= 15));
    // a darkness outside any loaded chunk changes nothing
    let none = propagate_darkness(&mut u, &bp, IVec3::new(100, 0, 0), LightType::Torch);
    assert!(none.is_empty());
}

#[test]
fn safe_positions() {
    assert!(is_pos_safe(IVec3::new(0, -100, 1_000_000)));
    assert!(!is_pos_safe(IVec3::new(i32::MAX, 0, 0)));
    assert!(!is_pos_safe(IVec3::new(0, i32::MIN, 0)));
}

#[test]
fn removing_a_block_leaves_air() {
    let bp = blueprints();
    let mut u = flat_world(&bp);
    let mut ls = LightSources::new();
    let mut sb = SunBeams::new();
    let pos = IVec3::new(3, 16, 3);
    remove_block(&mut u, pos, &mut ls, &mut sb, &bp);
    let b = u.read_chunk(&pos).unwrap();
    assert_eq!(b.id, 0);
    assert_eq!(b.light, 0);
    assert!(!b.opaque());
    assert_eq!(sb.get_at(&IVec2::new(3, 3)), SunBeam::new(256, 256));
    assert!(ls.leaked_sources.sun.is_empty());
}

#[test]
fn removing_the_block_under_a_beam_extends_it() {
    let bp = blueprints();
    let mut u = flat_world(&bp);
    let mut ls = LightSources::new();
    let mut sb = SunBeams::new();
    *sb.get_at_mut(&IVec2::new(3, 3)) = SunBeam::new(17, 256);
    let pos = IVec3::new(3, 16, 3);
    remove_block(&mut u, pos, &mut ls, &mut sb, &bp);
    assert_eq!(sb.get_at(&IVec2::new(3, 3)), SunBeam::new(16, 256));
    assert_eq!(ls.leaked_sources.sun, vec![LightSource { pos, brightness: 15 }]);
    assert_eq!(sb.get_at(&IVec2::new(3, 4)), SunBeam::new(256, 256));
}

#[test]
fn removing_next_to_lit_blocks_queues_their_light() {
    let bp = blueprints();
    let mut u = flat_world(&bp);
    let above = IVec3::new(3, 17, 3);
    let mut lit = u.read_chunk(&above).unwrap();
    lit.set_light(LightType::Sun, 15);
    lit.set_light(LightType::Torch, 1);
    u.set_chunk_block(&above, lit);
    let mut ls = LightSources::new();
    let mut sb = SunBeams::new();
    remove_block(&mut u, IVec3::new(3, 16, 3), &mut ls, &mut sb, &bp);
    assert!(ls.leaked_sources.sun.contains(&LightSource { pos: above, brightness: 15 }));
    assert!(!ls.leaked_sources.torch.iter().any(|l| l.pos == above));
}

#[test]
fn adding_a_block_cuts_the_beam_and_queues_its_light() {
    let bp = blueprints();
    let mut u = flat_world(&bp);
    let mut ls = LightSources::new();
    let mut sb = SunBeams::new();
    *sb.get_at_mut(&IVec2::new(3, 3)) = SunBeam::new(17, 256);
    let pos = IVec3::new(3, 20, 3);
    let torch = Block::new(bp.get(4));
    add_block(&mut u, pos, torch, &mut ls, &mut sb, &bp);
    assert_eq!(u.read_chunk(&pos).unwrap().id, 4);
    assert_eq!(sb.get_at(&IVec2::new(3, 3)), SunBeam::new(21, 256));
    assert_eq!(ls.leaked_sources.torch.last(), Some(&LightSource { pos, brightness: 14 }));
    apply_lighting_sources(&mut u, &mut ls);
    assert_eq!(torch_light(&u, pos), 14);
    assert_eq!(torch_light(&u, IVec3::new(3, 22, 3)), 12);
    assert_eq!(torch_light(&u, IVec3::new(3, 16, 3)), 0);
}

#[test]
fn adding_outside_loaded_chunks_changes_no_block() {
    let bp = blueprints();
    let mut u = flat_world(&bp);
    let mut ls = LightSources::new();
    let mut sb = SunBeams::new();
    let change = UniverseChange::Add { pos: IVec3::new(100, 5, 5), block: Block::new(bp.get(1)) };
    apply_terrain_change(&mut u, &change, &mut ls, &mut sb, &bp);
    assert_eq!(u.read_chunk(&IVec3::new(100, 5, 5)), None);
    assert_eq!(u.chunks.len(), 1);
}

#[test]
fn changes_apply_in_order() {
    let bp = blueprints();
    let mut u = flat_world(&bp);
    let mut ls = LightSources::new();
    let mut sb = SunBeams::new();
    let p = IVec3::new(5, 20, 5);
    let q = IVec3::new(6, 10, 6);
    let mut changes = UniverseChanges {
        queue: vec![
            UniverseChange::Add { pos: p, block: Block::new(bp.get(1)) },
            UniverseChange::Remove { pos: q },
            UniverseChange::Remove { pos: p },
            UniverseChange::Add { pos: p, block: Block::new(bp.get(3)) },
        ],
    };
    apply_terrain_changes(&mut u, &mut changes, &mut ls, &mut sb, &bp);
    assert!(changes.queue.is_empty());
    assert_eq!(u.read_chunk(&p).unwrap().id, 3);
    assert_eq!(u.read_chunk(&q).unwrap().id, 0);
    assert_eq!(u.read_chunk(&IVec3::new(6, 9, 6)).unwrap().id, 1);
    assert_eq!(u.get_chunk(&IVec3::new(0, 0, 0)).unwrap().blocks[xyz2idx(IVec3::new(5, 20, 5))].id, 3);
    let _ = HashMap::<u8, u8>::new();
}

#[test]
fn presses_become_edits() {
    let bp = blueprints();
    let hand = PlayerHand { hotbar_index: 0, block_id: Some(3) };
    let hit = IVec3::new(4, 10, 4);
    let up = IVec3::new(0, 1, 0);
    let inputs = vec![
        EditInput::Placing(false),
        EditInput::Placing(true),
        EditInput::Mining(true),
        EditInput::Mining(false),
    ];
    let edits = terrain_edits(&inputs, &hand, hit, up, false, &bp);
    assert_eq!(edits.len(), 2);
    match edits[0] {
        UniverseChange::Add { pos, block } => {
            assert_eq!(pos, IVec3::new(4, 11, 4));
            assert_eq!(block, Block::new(bp.get(3)));
        }
        _ => panic!("the first edit places a block"),
    }
    assert!(matches!(edits[1], UniverseChange::Remove { pos } if pos == hit));
    let blocked = terrain_edits(&inputs, &hand, hit, up, true, &bp);
    assert_eq!(blocked.len(), 1);
    let empty_hand = PlayerHand { hotbar_index: 0, block_id: None };
    assert_eq!(terrain_edits(&vec![EditInput::Placing(true)], &empty_hand, hit, up, false, &bp).len(), 0);
}

#[test]
fn queued_placement_queues_its_torch_light_and_cuts_the_beam() {
    let bp = blueprints();
    let mut u = flat_world(&bp);
    let mut ls = LightSources::new();
    ls.leaked_sources.torch.push(LightSource { pos: IVec3::new(1, 1, 1), brightness: 2 });
    let mut sb = SunBeams::new();
    *sb.get_at_mut(&IVec2::new(4, 4)) = SunBeam::new(17, 256);
    let pos = IVec3::new(4, 20, 4);
    let mut changes = UniverseChanges { queue: vec![UniverseChange::Add { pos, block: Block::new(bp.get(4)) }] };
    apply_terrain_changes(&mut u, &mut changes, &mut ls, &mut sb, &bp);
    assert!(changes.queue.is_empty());
    assert_eq!(u.read_chunk(&pos).unwrap().id, 4);
    assert_eq!(
        ls.leaked_sources.torch,
        vec![LightSource { pos: IVec3::new(1, 1, 1), brightness: 2 }, LightSource { pos, brightness: 14 }]
    );
    assert_eq!(sb.get_at(&IVec2::new(4, 4)), SunBeam::new(21, 256));
    assert_eq!(sb.get_at(&IVec2::new(4, 5)), SunBeam::new(256, 256));
}

#[test]
fn queued_removal_leaves_air_and_queues_every_lit_neighbour() {
    let bp = blueprints();
    let mut u = flat_world(&bp);
    let pos = IVec3::new(3, 16, 3);
    let above = IVec3::new(3, 17, 3);
    let side = IVec3::new(3, 16, 4);
    let mut lit = u.read_chunk(&above).unwrap();
    lit.set_light(LightType::Sun, 15);
    lit.set_light(LightType::Torch, 7);
    u.set_chunk_block(&above, lit);
    let mut ls = LightSources::new();
    let mut sb = SunBeams::new();
    let mut changes = UniverseChanges { queue: vec![UniverseChange::Remove { pos }] };
    apply_terrain_changes(&mut u, &mut changes, &mut ls, &mut sb, &bp);
    assert_eq!(u.read_chunk(&pos), Some(Block::new(bp.get(0))));
    assert!(ls.leaked_sources.sun.contains(&LightSource { pos: above, brightness: 15 }));
    assert!(ls.leaked_sources.torch.contains(&LightSource { pos: above, brightness: 7 }));
    // the side neighbour is opaque stone: nothing of it is queued
    assert!(!ls.leaked_sources.torch.iter().chain(ls.leaked_sources.sun.iter()).any(|l| l.pos == side));
}

#[test]
fn removal_above_the_ground_lets_the_beam_fall_to_it() {
    let bp = blueprints();
    let mut u = flat_world(&bp);
    let mut ls = LightSources::new();
    let mut sb = SunBeams::new();
    *sb.get_at_mut(&IVec2::new(3, 3)) = SunBeam::new(17, 256);
    let pos = IVec3::new(3, 25, 3);
    let mut changes = UniverseChanges {
        queue: vec![UniverseChange::Add { pos, block: Block::new(bp.get(1)) }, UniverseChange::Remove { pos }],
    };
    apply_terrain_changes(&mut u, &mut changes, &mut ls, &mut sb, &bp);
    // the placed block cut the beam; once it is gone the beam falls back to
    // the stone of the flat world, which ends at height 16
    assert_eq!(sb.get_at(&IVec2::new(3, 3)), SunBeam::new(17, 256));
    for y in 17..=25 {
        assert!(ls.leaked_sources.sun.contains(&LightSource { pos: IVec3::new(3, y, 3), brightness: 15 }));
    }
}

#[test]
fn darkness_relights_only_light_sources_it_put_out() {
    let bp = blueprints();
    let mut u = Universe::new();
    u.insert_chunk(IVec3::new(0, 0, 0), Chunk::empty());
    let torch = IVec3::new(10, 10, 11);
    let mut t = Block::new(bp.get(4));
    t.set_light(LightType::Torch, 3);
    u.set_chunk_block(&torch, t);
    let mut ls = LightSources::new();
    ls.leaked_sources.torch.push(LightSource { pos: IVec3::new(10, 10, 10), brightness: 9 });
    apply_lighting_sources(&mut u, &mut ls);
    assert_eq!(torch_light(&u, torch), 8);
    let relit = propagate_darkness(&mut u, &bp, IVec3::new(10, 10, 10), LightType::Torch);
    assert_eq!(torch_light(&u, torch), 0);
    assert!(relit.contains(&LightSource { pos: torch, brightness: 14 }));
    for l in relit.iter() {
        if l.pos == torch {
            continue;
        }
        assert!(l.brightness >= 9);
        assert_eq!(torch_light(&u, l.pos), l.brightness);
    }
}

#[test]
fn leaked_light_comes_from_a_brighter_block_next_to_it() {
    let mut chunk = Chunk::empty();
    let src = IVec3::new(1, 5, 5);
    chunk.set_block_light(src, LightType::Torch, 6);
    let before = chunk.blocks.clone();
    let leaks = propagate_light_chunk(&mut chunk.blocks, vec![src], LightType::Torch);
    assert!(!leaks.is_empty());
    for l in leaks.iter() {
        let from_inside = (0..6).any(|d| {
            let p = IVec3::new(l.pos.x - dir(d).x, l.pos.y - dir(d).y, l.pos.z - dir(d).z);
            (0..32).contains(&p.x) && (0..32).contains(&p.y) && (0..32).contains(&p.z)
                && chunk.read_block(p).get_light(LightType::Torch) >= l.brightness + 1
        });
        assert!(from_inside);
    }
    for i in 0..before.len() {
        let (a, b) = (before[i].get_light(LightType::Torch), chunk.blocks[i].get_light(LightType::Torch));
        if a != b {
            assert!(b <= 5);
        }
    }
}

#[test]
fn light_crossing_a_chunk_border_waits_for_the_next_chunk() {
    let mut u = Universe::new();
    u.insert_chunk(IVec3::new(0, 0, 0), Chunk::empty());
    let mut ls = LightSources::new();
    ls.leaked_sources.torch.push(LightSource { pos: IVec3::new(31, 5, 5), brightness: 5 });
    apply_lighting_sources(&mut u, &mut ls);
    assert_eq!(torch_light(&u, IVec3::new(31, 5, 5)), 5);
    assert_eq!(torch_light(&u, IVec3::new(30, 5, 5)), 4);
    let waiting = &ls.chunked_sources.torch[&IVec3::new(32, 0, 0).key()].sources;
    assert!(waiting.contains(&LightSource { pos: IVec3::new(0, 5, 5), brightness: 4 }));
    // light of brightness five fades before it reaches the chunk below
    assert!(!ls.chunked_sources.torch.contains_key(&IVec3::new(0, -32, 0).key()));
}

#[test]
fn world_range_checks() {
    let bp = blueprints();
    let mut u = flat_world(&bp);
    assert!(mcrs::terrain::universe_ids_known(&u, &bp));
    assert!(mcrs::terrain::universe_keys_in_range(&u));
    let mut odd = u.read_chunk(&IVec3::new(1, 1, 1)).unwrap();
    odd.id = 200;
    u.set_chunk_block(&IVec3::new(1, 1, 1), odd);
    assert!(!mcrs::terrain::universe_ids_known(&u, &bp));
    u.insert_chunk(IVec3::new(i32::MAX - 31, 0, 0), Chunk::empty());
    assert!(!mcrs::terrain::universe_keys_in_range(&u));
    let mut sb = SunBeams::new();
    assert!(mcrs::terrain::beams_in_range(&sb));
    *sb.get_at_mut(&IVec2::new(0, 0)) = SunBeam::new(i32::MIN + 10, 256);
    assert!(!mcrs::terrain::beams_in_range(&sb));
}

#[test]
fn a_placed_block_puts_out_the_sunlight_it_shades() {
    let bp = blueprints();
    let mut u = flat_world(&bp);
    let mut sb = SunBeams::new();
    *sb.get_at_mut(&IVec2::new(3, 3)) = SunBeam::new(17, 256);
    for y in 17..=25 {
        let p = IVec3::new(3, y, 3);
        let mut b = u.read_chunk(&p).unwrap();
        b.set_light(LightType::Sun, 15);
        u.set_chunk_block(&p, b);
    }
    let mut ls = LightSources::new();
    add_block(&mut u, IVec3::new(3, 25, 3), Block::new(bp.get(1)), &mut ls, &mut sb, &bp);
    for y in 17..25 {
        assert_eq!(u.read_chunk(&IVec3::new(3, y, 3)).unwrap().get_light(LightType::Sun), 0);
    }
    assert_eq!(sb.get_at(&IVec2::new(3, 3)), SunBeam::new(26, 256));
}

#[test]
fn removing_a_torch_puts_out_its_light() {
    let bp = blueprints();
    let mut u = flat_world(&bp);
    let mut ls = LightSources::new();
    let mut sb = SunBeams::new();
    let pos = IVec3::new(8, 20, 8);
    add_block(&mut u, pos, Block::new(bp.get(4)), &mut ls, &mut sb, &bp);
    apply_lighting_sources(&mut u, &mut ls);
    assert_eq!(torch_light(&u, IVec3::new(8, 22, 8)), 12);
    remove_block(&mut u, pos, &mut ls, &mut sb, &bp);
    assert_eq!(torch_light(&u, pos), 0);
    assert_eq!(torch_light(&u, IVec3::new(8, 22, 8)), 0);
    assert_eq!(torch_light(&u, IVec3::new(10, 20, 8)), 0);
}
