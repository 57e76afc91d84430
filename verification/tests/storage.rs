use mcrs::block::{Block, BlockBlueprint, BlockFlag, BlockType, Blueprints, ChunkFlag, LightType};
use mcrs::chunk::{contains, idx2xyz, xyz2idx, Chunk};
use mcrs::flagbank::FlagBank;
use mcrs::ivec::{IVec2, IVec3};
use mcrs::sun_beams::{get_spawn_chunks, get_sun_heightfield, SunBeam, SunBeams};
use mcrs::universe::{Universe, VoxelStoragePlugin};
use mcrs::{CHUNK_AREA, CHUNK_SIDE, CHUNK_VOLUME};

fn blueprint(id: u8, name: &str, light_level: u8, flags: Vec<u8>) -> BlockBlueprint {
    BlockBlueprint { id, name: name.to_string(), light_level, flags }
}

fn blueprints() -> Blueprints {
    let solid = vec![BlockFlag::Collidable.index(), BlockFlag::Opaque.index()];
    Blueprints {
        blocks: vec![
            blueprint(0, "air", 0, vec![]),
            blueprint(1, "stone", 0, solid.clone()),
            blueprint(2, "path", 0, solid.clone()),
            blueprint(3, "dirt", 0, solid.clone()),
            blueprint(4, "torch", 14, vec![]),
        ],
    }
}

#[test]
fn chunk_xyz_to_index_to_xyz() {
    for x in 0..32 {
        for y in 0..32 {
            for z in 0..32 {
                let xyz0 = IVec3 { x, y, z };
                let index = xyz2idx(xyz0.clone());
                let xyz1 = idx2xyz(index);
                assert_eq!(xyz0, xyz1);
            }
        }
    }
}

#[test]
fn chunk_index_layout() {
    assert_eq!(CHUNK_SIDE, 32);
    assert_eq!(CHUNK_AREA, 1024);
    assert_eq!(CHUNK_VOLUME, 32768);
    assert_eq!(xyz2idx(IVec3::new(1, 2, 3)), 1024 + 64 + 3);
    assert_eq!(xyz2idx(IVec3::new(31, 31, 31)), CHUNK_VOLUME - 1);
    assert_eq!(idx2xyz(33), IVec3::new(0, 1, 1));
    assert!(contains(&IVec3::new(0, 31, 5)));
    assert!(!contains(&IVec3::new(0, 32, 5)));
    assert!(!contains(&IVec3::new(-1, 0, 0)));
}

#[test]
fn flag_bank_set_check_unset() {
    let mut bank = FlagBank::default();
    assert!(!bank.check(0));
    assert_eq!(bank.to_bits(), 0);
    bank.set(BlockFlag::Collidable.index());
    assert!(bank.check(0));
    assert!(!bank.check(1));
    bank.set(BlockFlag::Opaque.index());
    assert!(bank.check(0) && bank.check(1));
    assert_eq!(bank.to_bits(), 3);
    bank.unset(0);
    assert!(!bank.check(0));
    assert!(bank.check(1));
    bank.set(15);
    assert_eq!(bank.to_bits(), 0x8002);
    assert_eq!(FlagBank::from_bits(0x8002), bank);
    assert_eq!(FlagBank::empty(), FlagBank::default());
}

#[test]
fn block_type_ids() {
    assert_eq!(BlockType::Air.id(), 0);
    assert_eq!(BlockType::Stone.id(), 1);
    assert_eq!(BlockType::Path.id(), 2);
    assert_eq!(BlockType::Dirt.id(), 3);
    assert_eq!(BlockType::Cobblestone.id(), 4);
    assert_eq!(BlockType::Wood.id(), 5);
    assert_eq!(BlockType::default(), BlockType::Air);
    assert_eq!(BlockFlag::Collidable.index(), 0);
    assert_eq!(BlockFlag::Opaque.index(), 1);
    assert_eq!(ChunkFlag::Updated.index(), 0);
}

#[test]
fn block_lights_are_independent() {
    let mut b = Block::default();
    b.set_light(LightType::Torch, 9);
    assert_eq!(b.get_light(LightType::Torch), 9);
    assert_eq!(b.get_light(LightType::Sun), 0);
    b.set_light(LightType::Sun, 15);
    assert_eq!(b.get_light(LightType::Torch), 9);
    assert_eq!(b.get_light(LightType::Sun), 15);
    assert_eq!(b.light, 0xf9);
    b.set_light(LightType::Torch, 0);
    assert_eq!(b.light, 0xf0);
}

#[test]
fn block_from_blueprint() {
    let bp = blueprints();
    let stone = Block::new(bp.get(1));
    assert_eq!(stone.id, 1);
    assert_eq!(stone.light, 0);
    assert!(stone.opaque());
    assert!(stone.properties.check(BlockFlag::Collidable.index()));
    let air = Block::new(bp.get(0));
    assert!(!air.opaque());
    assert!(bp.get(4).is_light_source());
    assert!(!bp.get(1).is_light_source());
    assert_eq!(bp.get_named("dirt").id, 3);
}

#[test]
fn chunk_constructors() {
    let bp = blueprints();
    let empty = Chunk::empty();
    assert_eq!(empty.blocks.len(), CHUNK_VOLUME);
    assert!(empty.blocks.iter().all(|b| b.id == 0));
    let filled = Chunk::filled(&bp);
    assert!(filled.blocks.iter().all(|b| b.id == 1));
    let flat = Chunk::flatland(&bp);
    assert_eq!(flat.read_block(IVec3::new(3, 16, 3)).id, 1);
    assert_eq!(flat.read_block(IVec3::new(3, 17, 3)).id, 0);
    assert_eq!(flat.read_block(IVec3::new(0, 0, 0)).id, 1);
    assert_eq!(flat.read_block(IVec3::new(31, 31, 31)).id, 0);
    assert_eq!(flat.clone_blocks(), flat.blocks);
}

#[test]
fn chunk_set_and_read_block() {
    let bp = blueprints();
    let mut chunk = Chunk::empty();
    let p = IVec3::new(4, 5, 6);
    chunk.set_block(p, bp.get(3));
    assert_eq!(chunk.read_block(p).id, 3);
    assert_eq!(chunk.read_block(IVec3::new(4, 5, 7)).id, 0);
    chunk.set_block_light(p, LightType::Sun, 12);
    assert_eq!(chunk.read_block(p).get_light(LightType::Sun), 12);
    assert_eq!(chunk.read_block(p).id, 3);
    let mut torch = Block::new(bp.get(4));
    torch.set_light(LightType::Torch, 14);
    chunk.set_entire_block(p, torch);
    assert_eq!(chunk.read_block(p), torch);
    assert_eq!(chunk.version, 0);
}

#[test]
fn universe_splits_positions() {
    let u = Universe::new();
    let (origin, inner) = u.pos_to_chunk_and_inner(&IVec3::new(-1, 33, 64));
    assert_eq!(origin, IVec3::new(-32, 32, 64));
    assert_eq!(inner, IVec3::new(31, 1, 0));
    let (origin, inner) = u.pos_to_chunk_and_inner(&IVec3::new(-32, -33, 0));
    assert_eq!(origin, IVec3::new(-32, -64, 0));
    assert_eq!(inner, IVec3::new(0, 31, 0));
}

#[test]
fn universe_write_then_read() {
    let bp = blueprints();
    let mut u = VoxelStoragePlugin.build();
    assert!(u.chunks.is_empty());
    let origin = IVec3::new(32, 0, -32);
    assert!(!u.contains_chunk(&origin));
    assert_eq!(u.read_chunk(&IVec3::new(40, 1, -1)), None);
    u.insert_chunk(origin, Chunk::empty());
    assert!(u.contains_chunk(&origin));
    let pos = IVec3::new(40, 1, -1);
    u.set_chunk(&pos, bp.get(1));
    let read = u.read_chunk(&pos).unwrap();
    assert_eq!(read.id, 1);
    assert_eq!(u.read_chunk(&IVec3::new(40, 2, -1)).unwrap().id, 0);
    let chunk = u.get_chunk(&origin).unwrap();
    assert_eq!(chunk.version, 1);
    assert!(chunk.properties.check(ChunkFlag::Updated.index()));
    // a write outside any loaded chunk changes nothing
    u.set_chunk_block(&IVec3::new(0, 0, 0), read);
    assert_eq!(u.chunks.len(), 1);
    let removed = u.remove_chunk(&origin).unwrap();
    assert_eq!(removed.read_block(IVec3::new(8, 1, 31)).id, 1);
    assert!(u.remove_chunk(&origin).is_none());
    assert!(Universe::default().chunks.is_empty());
}

#[test]
fn ivec_keys_roundtrip() {
    for p in [IVec3::new(0, 0, 0), IVec3::new(-1, 2, -3), IVec3::new(i32::MIN, i32::MAX, 7)] {
        assert_eq!(IVec3::from_key(p.key()), p);
    }
    assert_ne!(IVec3::new(1, 0, 0).key(), IVec3::new(0, 1, 0).key());
    for p in [IVec2::new(0, 0), IVec2::new(-5, 9), IVec2::new(i32::MAX, i32::MIN)] {
        assert_eq!(IVec2::from_key(p.key()), p);
    }
    assert_eq!(IVec3::new(1, 2, 3).xz(), IVec2::new(1, 3));
    assert_eq!(IVec3::new(1, 2, 3).add(&IVec3::new(-1, 1, 0)), IVec3::new(0, 3, 3));
}

#[test]
fn spawn_chunks_surround_origin() {
    let spawn = get_spawn_chunks();
    assert_eq!(spawn.len(), 27);
    assert_eq!(spawn[0], IVec3::new(-32, -32, -32));
    assert_eq!(spawn[13], IVec3::new(0, 0, 0));
    assert_eq!(spawn[1], IVec3::new(0, -32, -32));
    assert_eq!(spawn[26], IVec3::new(32, 32, 32));
    assert_eq!(get_sun_heightfield(IVec2::new(5, 5)), 256);
}

#[test]
fn sun_beam_extend_and_cut() {
    let mut beam = SunBeam::new_top(&IVec2::new(0, 0));
    assert_eq!(beam, SunBeam::new(256, 256));
    beam.extend(SunBeam::new(200, 255));
    assert_eq!(beam, SunBeam::new(200, 256));
    assert!(beam.contains(&200));
    assert!(!beam.contains(&199));
    let parts = beam.cut(230);
    assert_eq!(parts, Some((SunBeam::new(200, 230), SunBeam::new(231, 256))));
    assert_eq!(beam, SunBeam::new(231, 256));
    assert_eq!(beam.cut(10), None);
    assert_eq!(beam, SunBeam::new(231, 256));
    let mut top = SunBeam::new(256, 256);
    assert_eq!(top.cut(256), Some((SunBeam::new(256, 256), SunBeam::new(257, 256))));
    assert_eq!(top, SunBeam::new(256, 256));
}

#[test]
fn sun_beams_per_column() {
    let mut beams = SunBeams::new();
    let a = IVec2::new(3, 4);
    let b = IVec2::new(3, 5);
    assert_eq!(beams.get_at(&a), SunBeam::new(256, 256));
    assert!(beams.beams.is_empty());
    beams.extend_beam(&a, SunBeam::new(100, 255));
    assert_eq!(beams.get_at(&a), SunBeam::new(100, 256));
    assert_eq!(beams.get_at(&b), SunBeam::new(256, 256));
    let cut = beams.cut_beam(&a, 150);
    assert_eq!(cut, Some((SunBeam::new(100, 150), SunBeam::new(151, 256))));
    assert_eq!(beams.get_at(&a), SunBeam::new(151, 256));
    assert_eq!(beams.cut_beam(&b, 10), None);
    assert_eq!(beams.beams.len(), 2);
    *beams.get_at_mut(&b) = SunBeam::new(7, 8);
    assert_eq!(beams.get_at(&b), SunBeam::new(7, 8));
    let stored = vec![(IVec2::new(9, 9), SunBeam::new(1, 256))];
    beams.merge_stored(&stored);
    assert_eq!(beams.get_at(&IVec2::new(9, 9)), SunBeam::new(1, 256));
}

#[test]
fn stored_beams_fill_only_empty_columns() {
    let mut beams = SunBeams::new();
    let a = IVec2::new(1, 1);
    *beams.get_at_mut(&a) = SunBeam::new(10, 256);
    let far = IVec2::new(2, 2);
    let stored = vec![(a, SunBeam::new(1, 256)), (far, SunBeam::new(i32::MIN + 5, 256)), (far, SunBeam::new(3, 4))];
    beams.merge_stored(&stored);
    assert_eq!(beams.get_at(&a), SunBeam::new(10, 256));
    assert_eq!(beams.get_at(&far), SunBeam::new(i32::MIN + 5, 256));
    assert!(!mcrs::terrain::beams_in_range(&beams));
}

#[test]
fn flags_set_in_any_order_give_the_same_bank() {
    let mut a = FlagBank::empty();
    for f in [3u8, 0, 15, 7] {
        a.set(f);
    }
    let mut b = FlagBank::empty();
    for f in [7u8, 15, 3, 0, 3] {
        b.set(f);
    }
    for f in 0..16u8 {
        assert_eq!(a.check(f), [0u8, 3, 7, 15].contains(&f));
        assert_eq!(a.check(f), b.check(f));
    }
}
