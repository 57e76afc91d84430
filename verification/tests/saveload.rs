use mcrs::block::{Block, LightType};
use mcrs::chunk::{xyz2idx, Chunk};
use mcrs::flagbank::FlagBank;
use mcrs::ivec::{IVec2, IVec3};
use mcrs::saveload::{
    decode_blocks, decode_sun_beams_region, encode_blocks, encode_sun_beams_region, inflate_chunk, is_level_ready,
    read_chunk_bytes, sun_beam_regions, write_chunk_bytes, BLOCK_BYTES, CHUNK_COMPRESSION_LEVEL,
};
use mcrs::sun_beams::{get_spawn_chunks, SunBeam, SunBeams};
use mcrs::universe::Universe;
use mcrs::CHUNK_VOLUME;

fn varied_chunk() -> Chunk {
    let mut chunk = Chunk::empty();
    let mut b = Block { id: 7, light: 0, properties: FlagBank::from_bits(0x0102) };
    b.set_light(LightType::Sun, 12);
    b.set_light(LightType::Torch, 3);
    chunk.set_entire_block(IVec3::new(1, 2, 3), b);
    chunk.set_entire_block(IVec3::new(31, 31, 31), Block { id: 255, light: 0xff, properties: FlagBank::from_bits(0xffff) });
    chunk
}

#[test]
fn blocks_encode_four_bytes_each() {
    assert_eq!(BLOCK_BYTES, 4);
    assert_eq!(CHUNK_COMPRESSION_LEVEL, 6);
    let chunk = varied_chunk();
    let bytes = encode_blocks(&chunk.blocks);
    assert_eq!(bytes.len(), CHUNK_VOLUME * 4);
    let i = xyz2idx(IVec3::new(1, 2, 3)) * 4;
    assert_eq!(&bytes[i..i + 4], &[7, 0xc3, 0x02, 0x01]);
    assert_eq!(&bytes[0..4], &[0, 0, 0, 0]);
    let back = decode_blocks(&bytes).unwrap();
    assert_eq!(back.blocks, chunk.blocks);
    assert_eq!(back.version, 0);
}

#[test]
fn blocks_of_the_wrong_length_do_not_decode() {
    assert!(decode_blocks(&vec![0u8; CHUNK_VOLUME * 4 - 1]).is_none());
    assert!(decode_blocks(&vec![0u8; CHUNK_VOLUME * 4 + 4]).is_none());
    assert!(decode_blocks(&vec![]).is_none());
}

#[test]
fn stored_chunks_read_back() {
    let chunk = varied_chunk();
    let stored = write_chunk_bytes(&chunk);
    assert!(stored.len() < CHUNK_VOLUME * 4);
    let back = read_chunk_bytes(&stored).unwrap();
    assert_eq!(back.blocks, chunk.blocks);
    let back = inflate_chunk(&stored, CHUNK_VOLUME * 4).unwrap();
    assert_eq!(back.blocks, chunk.blocks);
}

#[test]
fn corrupt_or_oversized_data_does_not_read_back() {
    assert!(read_chunk_bytes(&vec![1, 2, 3, 4, 5]).is_none());
    let stored = write_chunk_bytes(&Chunk::empty());
    assert!(inflate_chunk(&stored, CHUNK_VOLUME * 4 - 1).is_none());
    let bytes = encode_blocks(&Chunk::empty().blocks);
    let truncated = bytes[..bytes.len() - 4].to_vec();
    assert!(decode_blocks(&truncated).is_none());
}

#[test]
fn sun_beam_regions_roundtrip() {
    let mut beams = SunBeams::new();
    *beams.get_at_mut(&IVec2::new(33, -1)) = SunBeam::new(-5, 256);
    *beams.get_at_mut(&IVec2::new(40, -30)) = SunBeam::new(100, 200);
    let region = IVec2::new(32, -32);
    let bytes = encode_sun_beams_region(&beams, region);
    assert_eq!(bytes.len(), 1024 * 8);
    let c: usize = 1 + 31 * 32;
    assert_eq!(&bytes[8 * c..8 * c + 8], &[0xfb, 0xff, 0xff, 0xff, 0, 1, 0, 0]);
    let decoded = decode_sun_beams_region(&bytes, region).unwrap();
    assert_eq!(decoded.len(), 1024);
    assert_eq!(decoded[c], (IVec2::new(33, -1), SunBeam::new(-5, 256)));
    assert_eq!(decoded[0], (IVec2::new(32, -32), SunBeam::new(256, 256)));
    let mut restored = SunBeams::new();
    restored.merge_stored(&decoded);
    assert_eq!(restored.get_at(&IVec2::new(40, -30)), SunBeam::new(100, 200));
    assert_eq!(restored.get_at(&IVec2::new(33, -1)), SunBeam::new(-5, 256));
    assert!(decode_sun_beams_region(&bytes[..bytes.len() - 1].to_vec(), region).is_none());
    assert!(decode_sun_beams_region(&vec![0u8; 8], region).is_none());
}

#[test]
fn regions_with_stored_beams() {
    let mut beams = SunBeams::new();
    assert!(sun_beam_regions(&beams).is_empty());
    beams.extend_beam(&IVec2::new(1, 1), SunBeam::new(200, 255));
    beams.extend_beam(&IVec2::new(2, 3), SunBeam::new(200, 255));
    beams.extend_beam(&IVec2::new(-1, 64), SunBeam::new(200, 255));
    let mut regions = sun_beam_regions(&beams);
    regions.sort_by_key(|r| (r.x, r.y));
    assert_eq!(regions, vec![IVec2::new(-32, 64), IVec2::new(0, 0)]);
}

#[test]
fn level_is_ready_once_spawn_is_loaded() {
    let mut u = Universe::new();
    assert!(!is_level_ready(&u));
    let spawn = get_spawn_chunks();
    for p in spawn.iter().take(26) {
        u.insert_chunk(*p, Chunk::empty());
    }
    assert!(!is_level_ready(&u));
    u.insert_chunk(spawn[26], Chunk::empty());
    assert!(is_level_ready(&u));
}
