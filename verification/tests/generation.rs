use mcrs::block::{Block, BlockBlueprint, BlockFlag, Blueprints, LightType};
use mcrs::chunk::Chunk;
use mcrs::generation::{
    chunks_to_unload, max_block_generation, ChunkGenerationRequest, ChunkGenerationState, GenerationPass,
};
use mcrs::ivec::{IVec2, IVec3};
use mcrs::sun_beams::{SunBeam, SunBeams};
use mcrs::terrain::LightSources;
use mcrs::universe::Universe;
use mcrs::{CHUNK_AREA, CHUNK_VOLUME};

fn blueprint(id: u8, name: &str, light_level: u8, flags: Vec<u8>) -> BlockBlueprint {
    BlockBlueprint { id, name: name.to_string(), light_level, flags }
}

fn blueprints() -> Blueprints {
    let solid = vec![BlockFlag::Collidable.index(), BlockFlag::Opaque.index()];
    Blueprints {
        blocks: vec![
            blueprint(0, "Air", 0, vec![]),
            blueprint(1, "Stone", 0, solid.clone()),
            blueprint(2, "Grass", 0, solid.clone()),
            blueprint(3, "Dirt", 0, solid.clone()),
        ],
    }
}

#[test]
fn generation_budget() {
    assert_eq!(max_block_generation(0), 80000);
    assert_eq!(max_block_generation(999), 80000);
    assert_eq!(max_block_generation(1000), 20000);
    assert_eq!(GenerationPass::default(), GenerationPass::Blocks);
}

#[test]
fn generation_state_stores_blocks() {
    let mut state = ChunkGenerationState::new(IVec3::new(0, 32, 0), 5);
    assert_eq!(state.pass, GenerationPass::Blocks);
    assert_eq!(state.blocks_lowest.len(), CHUNK_AREA);
    assert!(state.blocks_beams.iter().all(|b| *b == 31));
    assert_eq!(state.blocks_range(100), (0, 100));
    let stone = Block { id: 1, ..Block::default() };
    state.store_generated(vec![stone; 100]);
    assert_eq!(state.current_block, 100);
    assert_eq!(state.pass, GenerationPass::Blocks);
    assert_eq!(state.chunk.as_ref().unwrap().blocks[99].id, 1);
    assert_eq!(state.chunk.as_ref().unwrap().blocks[100].id, 0);
    assert_eq!(state.blocks_range(CHUNK_VOLUME), (100, CHUNK_VOLUME));
    state.store_generated(vec![stone; CHUNK_VOLUME - 100]);
    assert_eq!(state.pass, GenerationPass::Sunbeams);
}

#[test]
fn requests_keep_the_lowest_priority() {
    let mut request = ChunkGenerationRequest::new();
    let p = IVec3::new(0, 0, 32);
    request.insert_priority(p, 10);
    request.insert_priority(p, 3);
    request.insert_priority(p, 7);
    assert_eq!(request.requested[&p.key()].priority, 3);
    assert_eq!(request.requested.len(), 1);
    assert_eq!(request.keys_for_pass(GenerationPass::Blocks), vec![p.key()]);
    assert!(request.keys_for_pass(GenerationPass::Done).is_empty());
    let u = Universe::new();
    assert_eq!(request.missing_chunks(&u), vec![p]);
}

#[test]
fn loaded_chunks_are_adopted() {
    let mut request = ChunkGenerationRequest::new();
    let mut u = Universe::new();
    let p = IVec3::new(32, 0, 0);
    request.insert_priority(p, 1);
    request.adopt_loaded(&mut u, p, Chunk::empty());
    assert!(request.requested.is_empty());
    assert!(u.contains_chunk(&p));
    assert!(request.missing_chunks(&u).is_empty());
}

#[test]
fn only_unneeded_chunks_are_unloaded() {
    let mut u = Universe::new();
    let keep = IVec3::new(0, 0, 0);
    let requested = IVec3::new(0, 32, 0);
    let drop = IVec3::new(64, 0, 0);
    for p in [keep, requested, drop] {
        u.insert_chunk(p, Chunk::empty());
    }
    let mut request = ChunkGenerationRequest::new();
    request.insert_priority(requested, 0);
    let unload = chunks_to_unload(&u, &vec![keep], &request);
    assert_eq!(unload, vec![drop.key()]);
}

fn run_generation(
    request: &mut ChunkGenerationRequest,
    universe: &mut Universe,
    sun_beams: &mut SunBeams,
    light_sources: &mut LightSources,
    bp: &Blueprints,
    ground: i32,
) {
    let stone = Block::new(bp.get(1));
    let air = Block::new(bp.get(0));
    let generator = move |p: IVec3| if p.y <= ground { stone } else { air };
    for _ in 0..20 {
        let max = max_block_generation(universe.chunks.len());
        let mut processed = 0;
        request.run_blocks_passes(&generator, &mut processed, max);
        let mut processed = 0;
        request.run_sunbeam_passes(universe, sun_beams, &mut processed, max);
        let mut processed = 0;
        request.run_biome_passes(sun_beams, bp, &mut processed, max);
        let mut processed = 0;
        request.run_lighting_passes(sun_beams, bp, light_sources, &mut processed, max);
        request.collect_done(universe);
        request.resume_waiting(universe);
        if request.requested.is_empty() {
            break;
        }
    }
}

#[test]
fn a_chunk_under_the_sky_waits_for_the_chunk_above() {
    let bp = blueprints();
    let mut request = ChunkGenerationRequest::new();
    let mut universe = Universe::new();
    let mut sun_beams = SunBeams::new();
    let mut light_sources = LightSources::new();
    let low = IVec3::new(0, 224, 0);
    let high = IVec3::new(0, 256, 0);
    request.insert_priority(low, 1);

    let stone = Block::new(bp.get(1));
    let air = Block::new(bp.get(0));
    let generator = move |p: IVec3| if p.y <= 234 { stone } else { air };
    let mut processed = 0;
    request.run_blocks_passes(&generator, &mut processed, 80000);
    assert_eq!(processed, CHUNK_VOLUME);
    assert_eq!(request.requested[&low.key()].pass, GenerationPass::Sunbeams);
    let mut processed = 0;
    request.run_sunbeam_passes(&universe, &mut sun_beams, &mut processed, 80000);
    let state = &request.requested[&low.key()];
    assert_eq!(state.pass, GenerationPass::WaitingForSunbeams);
    assert_eq!(state.depends_on, vec![high]);
    assert_eq!(state.blocks_lowest[0], 11);
    assert_eq!(state.blocks_beams[0], 31);
    let above = &request.requested[&high.key()];
    assert_eq!(above.priority, 0);
    assert_eq!(above.pass, GenerationPass::Blocks);

    run_generation(&mut request, &mut universe, &mut sun_beams, &mut light_sources, &bp, 234);
    assert!(request.requested.is_empty());
    assert!(universe.contains_chunk(&low));
    assert!(universe.contains_chunk(&high));
    // the waiting chunk goes back to the lighting pass once the chunk above
    // is loaded: its columns add nothing to the beams and get no grass
    assert_eq!(sun_beams.get_at(&IVec2::new(5, 5)), SunBeam::new(256, 256));
    let id_at = |y: i32| universe.read_chunk(&IVec3::new(5, y, 5)).unwrap().id;
    assert_eq!(id_at(235), 0);
    assert_eq!(id_at(234), 1);
    assert_eq!(id_at(233), 1);
    let sun_at = |y: i32| universe.read_chunk(&IVec3::new(5, y, 5)).unwrap().get_light(LightType::Sun);
    assert_eq!(sun_at(256), 15);
    assert_eq!(sun_at(240), 0);
}

#[test]
fn a_chunk_at_sun_height_is_generated_without_waiting() {
    let bp = blueprints();
    let mut request = ChunkGenerationRequest::new();
    let mut universe = Universe::new();
    let mut sun_beams = SunBeams::new();
    let mut light_sources = LightSources::new();
    let sky = IVec3::new(0, 256, 0);
    request.insert_priority(sky, 1);
    run_generation(&mut request, &mut universe, &mut sun_beams, &mut light_sources, &bp, 0);
    assert!(request.requested.is_empty());
    assert_eq!(universe.chunks.len(), 1);
    let sun_at = |y: i32| universe.read_chunk(&IVec3::new(3, y, 3)).unwrap().get_light(LightType::Sun);
    assert_eq!(sun_at(256), 15);
    assert_eq!(sun_at(257), 14);
    assert_eq!(sun_at(260), 11);
    assert_eq!(sun_beams.get_at(&IVec2::new(3, 3)), SunBeam::new(256, 256));
    assert!(light_sources.leaked_sources.sun.iter().any(|l| l.pos.y == 255 && l.brightness == 14));
}

#[test]
fn one_generation_step_finishes_a_sky_chunk() {
    let bp = blueprints();
    let mut request = ChunkGenerationRequest::new();
    let mut universe = Universe::new();
    let mut sun_beams = SunBeams::new();
    let mut light_sources = LightSources::new();
    let sky = IVec3::new(0, 256, 0);
    request.insert_priority(sky, 1);
    let stone = Block::new(bp.get(1));
    let air = Block::new(bp.get(0));
    let generator = move |p: IVec3| if p.y <= 0 { stone } else { air };
    // the blocks, sun beam and biome passes spend the whole budget
    let done = request.run_generation_step(&mut universe, &mut sun_beams, &bp, &mut light_sources, &generator, 80000);
    assert!(done.is_empty());
    assert_eq!(request.requested[&sky.key()].pass, GenerationPass::Lighting);
    assert_eq!(request.requested[&sky.key()].current_block, CHUNK_VOLUME);
    let done = request.run_generation_step(&mut universe, &mut sun_beams, &bp, &mut light_sources, &generator, 80000);
    assert_eq!(done, vec![sky]);
    assert!(request.requested.is_empty());
    assert!(universe.contains_chunk(&sky));
    assert_eq!(universe.read_chunk(&IVec3::new(3, 256, 3)).unwrap().get_light(LightType::Sun), 15);
}

#[test]
fn a_generation_step_within_a_small_budget_leaves_the_chunk_in_the_blocks_pass() {
    let bp = blueprints();
    let mut request = ChunkGenerationRequest::new();
    let mut universe = Universe::new();
    let mut sun_beams = SunBeams::new();
    let mut light_sources = LightSources::new();
    let sky = IVec3::new(0, 256, 0);
    request.insert_priority(sky, 1);
    let air = Block::new(bp.get(0));
    let generator = move |_p: IVec3| air;
    let done = request.run_generation_step(&mut universe, &mut sun_beams, &bp, &mut light_sources, &generator, 1000);
    assert!(done.is_empty());
    let state = &request.requested[&sky.key()];
    assert_eq!(state.pass, GenerationPass::Blocks);
    assert_eq!(state.current_block, 1000);
}

#[test]
fn processed_counts_the_generated_blocks() {
    let bp = blueprints();
    let mut request = ChunkGenerationRequest::new();
    request.insert_priority(IVec3::new(0, 0, 0), 1);
    request.insert_priority(IVec3::new(32, 0, 0), 2);
    let air = Block::new(bp.get(0));
    let generator = move |_p: IVec3| air;
    let mut processed = 5;
    request.run_blocks_passes(&generator, &mut processed, CHUNK_VOLUME + 105);
    let generated: usize = request.requested.values().map(|s| s.current_block).sum();
    assert_eq!(processed - 5, generated);
    assert_eq!(generated, CHUNK_VOLUME + 100);
}

#[test]
fn a_step_returns_a_waiting_chunk_once_the_chunk_above_is_loaded() {
    let bp = blueprints();
    let mut request = ChunkGenerationRequest::new();
    let mut universe = Universe::new();
    let mut sun_beams = SunBeams::new();
    let mut light_sources = LightSources::new();
    let low = IVec3::new(0, 224, 0);
    let high = IVec3::new(0, 256, 0);
    request.insert_priority(low, 1);
    let stone = Block::new(bp.get(1));
    let air = Block::new(bp.get(0));
    let generator = move |p: IVec3| if p.y <= 234 { stone } else { air };
    let mut processed = 0;
    request.run_blocks_passes(&generator, &mut processed, 80000);
    let mut processed = 0;
    request.run_sunbeam_passes(&universe, &mut sun_beams, &mut processed, 80000);
    assert_eq!(request.requested[&low.key()].pass, GenerationPass::WaitingForSunbeams);
    universe.insert_chunk(high, Chunk::empty());
    let done = request.run_generation_step(&mut universe, &mut sun_beams, &bp, &mut light_sources, &generator, 80000);
    match request.requested.get(&low.key()) {
        Some(state) => {
            assert_eq!(state.pass, GenerationPass::Lighting);
            assert!(!state.depends_on.contains(&high));
        }
        None => assert!(done.contains(&low)),
    }
}

#[test]
fn requests_know_their_block_ids() {
    let bp = blueprints();
    let mut request = ChunkGenerationRequest::new();
    request.insert_priority(IVec3::new(0, 0, 0), 1);
    assert!(request.ids_known(&bp));
    let odd = Block { id: 200, ..Block::new(bp.get(1)) };
    let generator = move |_p: IVec3| odd;
    let mut processed = 0;
    request.run_blocks_passes(&generator, &mut processed, 10);
    assert!(!request.ids_known(&bp));
}
