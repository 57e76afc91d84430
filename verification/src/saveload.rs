//! The stored forms of chunks and of sun beam regions: their bytes, and the
//! compression of the chunk bytes.
use vstd::prelude::*;
use crate::block::Block;
use crate::chunk::Chunk;
use crate::flagbank::FlagBank;
use crate::ivec::{plane_key, plane_pos, IVec2, IVec3};
use crate::sun_beams::{SunBeam, SunBeams};
use crate::universe::{axis_origin, Universe};
use crate::{CHUNK_AREA, CHUNK_SIDE, CHUNK_VOLUME};

verus! {

/// Compression level of the stored chunks.
pub const CHUNK_COMPRESSION_LEVEL: u8 = 6;

/// Bytes of one block in storage.
pub const BLOCK_BYTES: usize = 4;

#[verifier::external_type_specification]
#[verifier::external_body]
pub struct ExDecompressError(miniz_oxide::inflate::DecompressError);

/// The deflate stream that `miniz_oxide::deflate::compress_to_vec` makes of
/// `input` at compression level `level`.
pub uninterp spec fn deflated(input: Seq<u8>, level: u8) -> Seq<u8>;

/// What `miniz_oxide::inflate::decompress_to_vec_with_limit` makes of
/// `input` with the output limit `max_size`: the inflated data, or nothing
/// when it fails.
pub uninterp spec fn inflated(input: Seq<u8>, max_size: usize) -> Option<Seq<u8>>;

/// Calls `miniz_oxide::deflate::compress_to_vec`. Claimed of it: the result
/// is the deflate stream of the input at that level, and inflating it with
/// an output limit the (non-empty) input fits in gives the input back.
#[verifier::external_body]
fn compress_to_vec(input: &[u8], level: u8) -> (r: Vec<u8>)
    requires
        level <= 10,
    ensures
        r@ == deflated(input@, level),
        forall|max_size: usize|
            0 < input@.len() <= max_size ==> #[trigger] inflated(r@, max_size) == Some(input@),
{
    miniz_oxide::deflate::compress_to_vec(input, level)
}

/// Calls `miniz_oxide::inflate::decompress_to_vec_with_limit`. Claimed of
/// it: it succeeds exactly when the data inflates within the limit, and
/// then gives the inflated data, at most `max_size` bytes long.
#[verifier::external_body]
fn decompress_to_vec_with_limit(input: &[u8], max_size: usize) -> (r: Result<Vec<u8>, miniz_oxide::inflate::DecompressError>)
    ensures
        match r {
            Ok(v) => inflated(input@, max_size) == Some(v@) && v@.len() <= max_size,
            Err(_) => inflated(input@, max_size).is_none(),
        },
{
    miniz_oxide::inflate::decompress_to_vec_with_limit(input, max_size)
}

/// The four stored bytes of a block: identifier, light, and the packed flags,
/// low byte first.
pub open spec fn block_bytes(b: Block) -> Seq<u8> {
    seq![b.id, b.light, (b.properties.bits() & 0xff) as u8, (b.properties.bits() >> 8u16) as u8]
}

/// The stored bytes of a sequence of blocks, one block after the other.
pub open spec fn blocks_bytes(s: Seq<Block>) -> Seq<u8> {
    Seq::new(s.len() * 4, |i: int| block_bytes(s[i / 4])[i % 4])
}

/// The block stored at block index `i` of `bytes`.
pub open spec fn block_at_bytes(bytes: Seq<u8>, i: int) -> Block {
    Block {
        id: bytes[4 * i],
        light: bytes[4 * i + 1],
        properties: FlagBank::of_bits((bytes[4 * i + 2] as u16 | ((bytes[4 * i + 3] as u16) << 8u16)) as u16),
    }
}

/// The chunk stored in `bytes`, if they hold exactly one chunk of blocks: a
/// fresh chunk (version zero, no flag) with those blocks.
pub open spec fn chunk_of_bytes(bytes: Seq<u8>) -> Option<Seq<Block>> {
    if bytes.len() == CHUNK_VOLUME * 4 {
        Some(Seq::new(CHUNK_VOLUME as nat, |i: int| block_at_bytes(bytes, i)))
    } else {
        None
    }
}

proof fn lemma_u16_bytes(v: u16)
    ensures
        (((v & 0xff) as u8) as u16 | ((((v >> 8u16) as u8) as u16) << 8u16)) as u16 == v,
{
    assert((((v & 0xff) as u8) as u16 | ((((v >> 8u16) as u8) as u16) << 8u16)) as u16 == v) by (bit_vector);
}

/// Storing blocks and reading them back gives the same blocks.
pub proof fn law_blocks_bytes_roundtrip(s: Seq<Block>)
    requires
        s.len() == CHUNK_VOLUME,
    ensures
        chunk_of_bytes(blocks_bytes(s)) == Some(s),
{
    let bytes = blocks_bytes(s);
    assert forall|i: int| 0 <= i < CHUNK_VOLUME implies #[trigger] block_at_bytes(bytes, i) == s[i] by {
        assert((4 * i) / 4 == i && (4 * i) % 4 == 0) by (nonlinear_arith);
        assert((4 * i + 1) / 4 == i && (4 * i + 1) % 4 == 1) by (nonlinear_arith);
        assert((4 * i + 2) / 4 == i && (4 * i + 2) % 4 == 2) by (nonlinear_arith);
        assert((4 * i + 3) / 4 == i && (4 * i + 3) % 4 == 3) by (nonlinear_arith);
        let b = s[i];
        lemma_u16_bytes(b.properties.bits());
        FlagBank::lemma_of_bits(b.properties.bits());
        b.properties.lemma_bits();
    }
    assert(Seq::new(CHUNK_VOLUME as nat, |i: int| block_at_bytes(bytes, i)) =~= s);
}

/// The stored bytes of the blocks of a chunk.
pub fn encode_blocks(blocks: &Vec<Block>) -> (r: Vec<u8>)
    requires
        blocks@.len() == CHUNK_VOLUME,
    ensures
        r@ == blocks_bytes(blocks@),
{
    let mut r: Vec<u8> = Vec::with_capacity(CHUNK_VOLUME * 4);
    let mut i: usize = 0;
    while i < blocks.len()
        invariant
            i <= blocks@.len(),
            blocks@.len() == CHUNK_VOLUME,
            r@.len() == 4 * i,
            forall|j: int| 0 <= j < 4 * i ==> #[trigger] r@[j] == block_bytes(blocks@[j / 4])[j % 4],
        decreases blocks.len() - i,
    {
        let b = blocks[i];
        let bits = b.properties.to_bits();
        let ghost r0 = r@;
        r.push(b.id);
        r.push(b.light);
        r.push((bits & 0xff) as u8);
        r.push((bits >> 8u16) as u8);
        proof {
            assert forall|j: int| 0 <= j < 4 * (i + 1) implies #[trigger] r@[j] == block_bytes(blocks@[j / 4])[j % 4] by {
                if j < 4 * i {
                    assert(r@[j] == r0[j]);
                } else {
                    assert(j / 4 == i && 0 <= j % 4 < 4 && j == 4 * i + j % 4) by (nonlinear_arith)
                        requires
                            4 * i <= j < 4 * i + 4,
                    ;
                }
            }
        }
        i = i + 1;
    }
    proof {
        assert(r@ =~= blocks_bytes(blocks@));
    }
    r
}

/// The chunk stored in `bytes`, if they hold exactly one chunk of blocks.
pub fn decode_blocks(bytes: &Vec<u8>) -> (r: Option<Chunk>)
    ensures
        match r {
            Some(c) => chunk_of_bytes(bytes@) == Some(c.blocks@) && c.wf() && c.version == 0
                && c.properties@ == Set::<u8>::empty(),
            None => chunk_of_bytes(bytes@).is_none(),
        },
{
    if bytes.len() != CHUNK_VOLUME * 4 {
        return None;
    }
    let mut chunk = Chunk::empty();
    let mut i: usize = 0;
    while i < CHUNK_VOLUME
        invariant
            i <= CHUNK_VOLUME,
            bytes@.len() == CHUNK_VOLUME * 4,
            chunk.blocks@.len() == CHUNK_VOLUME,
            chunk.version == 0,
            chunk.properties@ == Set::<u8>::empty(),
            forall|j: int| 0 <= j < i ==> #[trigger] chunk.blocks@[j] == block_at_bytes(bytes@, j),
        decreases CHUNK_VOLUME - i,
    {
        let bits = bytes[4 * i + 2] as u16 | ((bytes[4 * i + 3] as u16) << 8u16);
        let b = Block { id: bytes[4 * i], light: bytes[4 * i + 1], properties: FlagBank::from_bits(bits) };
        chunk.blocks.set(i, b);
        i = i + 1;
    }
    proof {
        assert(chunk.blocks@ =~= Seq::new(CHUNK_VOLUME as nat, |i: int| block_at_bytes(bytes@, i)));
    }
    Some(chunk)
}

/// The compressed stored form of the blocks of a chunk. Reading it back
/// with [`read_chunk_bytes`] gives the same blocks.
pub fn write_chunk_bytes(chunk: &Chunk) -> (r: Vec<u8>)
    requires
        chunk.wf(),
    ensures
        r@ == deflated(blocks_bytes(chunk.blocks@), CHUNK_COMPRESSION_LEVEL),
        inflated(r@, (CHUNK_VOLUME * 4) as usize) == Some(blocks_bytes(chunk.blocks@)),
{
    let bytes = encode_blocks(&chunk.blocks);
    let r = compress_to_vec(bytes.as_slice(), CHUNK_COMPRESSION_LEVEL);
    proof {
        assert(inflated(r@, (CHUNK_VOLUME * 4) as usize) == Some(bytes@));
    }
    r
}

/// The chunk read back from its compressed stored form, inflating at most
/// `max_size` bytes: nothing when the data does not inflate within that
/// limit or does not hold exactly one chunk of blocks.
pub fn inflate_chunk(compressed: &Vec<u8>, max_size: usize) -> (r: Option<Chunk>)
    ensures
        match inflated(compressed@, max_size) {
            Some(bytes) => match r {
                Some(c) => chunk_of_bytes(bytes) == Some(c.blocks@) && c.wf() && c.version == 0
                    && c.properties@ == Set::<u8>::empty(),
                None => chunk_of_bytes(bytes).is_none(),
            },
            None => r.is_none(),
        },
{
    match decompress_to_vec_with_limit(compressed.as_slice(), max_size) {
        Ok(bytes) => decode_blocks(&bytes),
        Err(_) => None,
    }
}

/// The chunk read back from its compressed stored form (see
/// [`inflate_chunk`]), inflating at most one chunk of bytes.
pub fn read_chunk_bytes(compressed: &Vec<u8>) -> (r: Option<Chunk>)
    ensures
        match inflated(compressed@, (CHUNK_VOLUME * 4) as usize) {
            Some(bytes) => match r {
                Some(c) => chunk_of_bytes(bytes) == Some(c.blocks@) && c.wf() && c.version == 0
                    && c.properties@ == Set::<u8>::empty(),
                None => chunk_of_bytes(bytes).is_none(),
            },
            None => r.is_none(),
        },
{
    inflate_chunk(compressed, CHUNK_VOLUME * 4)
}

/// What is stored for a chunk reads back as its blocks.
pub proof fn law_chunk_storage_roundtrip(blocks: Seq<Block>, stored: Seq<u8>)
    requires
        blocks.len() == CHUNK_VOLUME,
        inflated(stored, (CHUNK_VOLUME * 4) as usize) == Some(blocks_bytes(blocks)),
    ensures
        match inflated(stored, (CHUNK_VOLUME * 4) as usize) {
            Some(bytes) => chunk_of_bytes(bytes) == Some(blocks),
            None => false,
        },
{
    law_blocks_bytes_roundtrip(blocks);
}


/// The four stored bytes of an `i32`, low byte first.
pub open spec fn i32_bytes(v: i32) -> Seq<u8> {
    seq![
        (v as u32 & 0xff) as u8,
        ((v as u32 >> 8u32) & 0xff) as u8,
        ((v as u32 >> 16u32) & 0xff) as u8,
        (v as u32 >> 24u32) as u8,
    ]
}

/// The `i32` stored at byte `i` of `bytes`, low byte first.
pub open spec fn i32_at(bytes: Seq<u8>, i: int) -> i32 {
    (bytes[i] as u32 | ((bytes[i + 1] as u32) << 8u32) | ((bytes[i + 2] as u32) << 16u32) | ((
    bytes[i + 3] as u32) << 24u32)) as i32
}

/// The eight stored bytes of a beam: its bottom, then its top.
pub open spec fn beam_bytes(b: SunBeam) -> Seq<u8> {
    i32_bytes(b.bottom) + i32_bytes(b.top)
}

/// Column `r` (`x + z * CHUNK_SIDE`) of the region with origin `region`.
pub open spec fn region_column(region: IVec2, r: int) -> IVec2 {
    IVec2 { x: (region.x + r % 32) as i32, y: (region.y + r / 32) as i32 }
}

/// A region far enough from the integer limits for all its columns.
pub open spec fn region_in_range(region: IVec2) -> bool {
    region.x + 31 <= i32::MAX && region.y + 31 <= i32::MAX
}

/// The stored bytes of the beams of the columns of a region, column after
/// column.
pub open spec fn region_bytes(sb: SunBeams, region: IVec2) -> Seq<u8> {
    Seq::new((CHUNK_AREA * 8) as nat, |i: int| beam_bytes(sb.beam_at(region_column(region, i / 8)))[i % 8])
}

/// The beams stored in `bytes` for the region with origin `region`, with
/// their columns; nothing unless the bytes are whole beams, at least one
/// per column.
pub open spec fn region_of_bytes(bytes: Seq<u8>, region: IVec2) -> Option<Seq<(IVec2, SunBeam)>> {
    if bytes.len() % 8 == 0 && bytes.len() >= CHUNK_AREA * 8 {
        Some(
            Seq::new(
                CHUNK_AREA as nat,
                |r: int| (region_column(region, r), SunBeam { bottom: i32_at(bytes, 8 * r), top: i32_at(bytes, 8 * r + 4) }),
            ),
        )
    } else {
        None
    }
}

proof fn lemma_i32_bytes(v: i32)
    ensures
        ((v as u32 & 0xff) as u8 as u32 | (((((v as u32 >> 8u32) & 0xff) as u8) as u32) << 8u32) | ((((
        (v as u32 >> 16u32) & 0xff) as u8) as u32) << 16u32) | ((((v as u32 >> 24u32) as u8) as u32) << 24u32)) as i32
            == v,
{
    assert(((v as u32 & 0xff) as u8 as u32 | (((((v as u32 >> 8u32) & 0xff) as u8) as u32) << 8u32) | ((((
    (v as u32 >> 16u32) & 0xff) as u8) as u32) << 16u32) | ((((v as u32 >> 24u32) as u8) as u32) << 24u32)) as i32
        == v) by (bit_vector);
}

proof fn lemma_div8(r: int, k: int)
    requires
        0 <= k < 8,
    ensures
        (8 * r + k) / 8 == r,
        (8 * r + k) % 8 == k,
{
    assert((8 * r + k) / 8 == r && (8 * r + k) % 8 == k) by (nonlinear_arith)
        requires
            0 <= k < 8,
    ;
}

/// Storing the beams of a region and reading them back gives the beam of
/// every column of the region.
pub proof fn law_region_roundtrip(sb: SunBeams, region: IVec2)
    ensures
        region_of_bytes(region_bytes(sb, region), region) == Some(
            Seq::new(CHUNK_AREA as nat, |r: int| (region_column(region, r), sb.beam_at(region_column(region, r)))),
        ),
{
    let bytes = region_bytes(sb, region);
    assert(bytes.len() == CHUNK_AREA * 8);
    assert forall|r: int| 0 <= r < CHUNK_AREA implies #[trigger] i32_at(bytes, 8 * r) == sb.beam_at(region_column(region, r)).bottom
        && i32_at(bytes, 8 * r + 4) == sb.beam_at(region_column(region, r)).top by {
        let b = sb.beam_at(region_column(region, r));
        lemma_div8(r, 0);
        lemma_div8(r, 1);
        lemma_div8(r, 2);
        lemma_div8(r, 3);
        lemma_div8(r, 4);
        lemma_div8(r, 5);
        lemma_div8(r, 6);
        lemma_div8(r, 7);
        assert(bytes[8 * r] == beam_bytes(b)[0]);
        assert(bytes[8 * r + 1] == beam_bytes(b)[1]);
        assert(bytes[8 * r + 2] == beam_bytes(b)[2]);
        assert(bytes[8 * r + 3] == beam_bytes(b)[3]);
        assert(bytes[8 * r + 4] == beam_bytes(b)[4]);
        assert(bytes[8 * r + 5] == beam_bytes(b)[5]);
        assert(bytes[8 * r + 6] == beam_bytes(b)[6]);
        assert(bytes[8 * r + 7] == beam_bytes(b)[7]);
        lemma_i32_bytes(b.bottom);
        lemma_i32_bytes(b.top);
    }
    assert(Seq::new(
        CHUNK_AREA as nat,
        |r: int| (region_column(region, r), SunBeam { bottom: i32_at(bytes, 8 * r), top: i32_at(bytes, 8 * r + 4) }),
    ) =~= Seq::new(CHUNK_AREA as nat, |r: int| (region_column(region, r), sb.beam_at(region_column(region, r)))));
}

pub(crate) fn push_i32(r: &mut Vec<u8>, v: i32)
    ensures
        final(r)@ == old(r)@ + i32_bytes(v),
{
    let u = v as u32;
    r.push((u & 0xff) as u8);
    r.push(((u >> 8u32) & 0xff) as u8);
    r.push(((u >> 16u32) & 0xff) as u8);
    r.push((u >> 24u32) as u8);
    proof {
        assert(r@ =~= old(r)@ + i32_bytes(v));
    }
}

fn read_i32(bytes: &Vec<u8>, i: usize) -> (r: i32)
    requires
        i + 4 <= bytes.len(),
    ensures
        r == i32_at(bytes@, i as int),
{
    let b0 = bytes[i] as u32;
    let b1 = bytes[i + 1] as u32;
    let b2 = bytes[i + 2] as u32;
    let b3 = bytes[i + 3] as u32;
    (b0 | (b1 << 8u32) | (b2 << 16u32) | (b3 << 24u32)) as i32
}

/// The stored bytes of the beams of the region with origin `region`
/// (columns without a stored beam store the unshaded beam).
pub fn encode_sun_beams_region(sun_beams: &SunBeams, region: IVec2) -> (r: Vec<u8>)
    requires
        region_in_range(region),
    ensures
        r@ == region_bytes(*sun_beams, region),
{
    let mut r: Vec<u8> = Vec::with_capacity(CHUNK_AREA * 8);
    let mut c: usize = 0;
    while c < CHUNK_AREA
        invariant
            c <= CHUNK_AREA,
            region_in_range(region),
            r@.len() == 8 * c,
            forall|j: int| 0 <= j < 8 * c ==> #[trigger] r@[j] == beam_bytes(sun_beams.beam_at(region_column(region, j / 8)))[j % 8],
        decreases CHUNK_AREA - c,
    {
        let xz = IVec2 { x: region.x + (c % 32) as i32, y: region.y + (c / 32) as i32 };
        let beam = sun_beams.get_at(&xz);
        let ghost r0 = r@;
        push_i32(&mut r, beam.bottom);
        push_i32(&mut r, beam.top);
        proof {
            assert(xz == region_column(region, c as int));
            assert forall|j: int| 0 <= j < 8 * (c + 1) implies #[trigger] r@[j] == beam_bytes(
                sun_beams.beam_at(region_column(region, j / 8)),
            )[j % 8] by {
                if j < 8 * c {
                    assert(r@[j] == r0[j]);
                } else {
                    assert(j / 8 == c && j % 8 == j - 8 * c) by (nonlinear_arith)
                        requires
                            8 * c <= j < 8 * c + 8,
                    ;
                }
            }
        }
        c = c + 1;
    }
    proof {
        assert(r@ =~= region_bytes(*sun_beams, region));
    }
    r
}

/// The beams stored in `bytes` for the region with origin `region`, with
/// their columns; nothing unless the bytes are whole beams, at least one per
/// column.
pub fn decode_sun_beams_region(bytes: &Vec<u8>, region: IVec2) -> (r: Option<Vec<(IVec2, SunBeam)>>)
    requires
        region_in_range(region),
    ensures
        match r {
            Some(v) => region_of_bytes(bytes@, region) == Some(v@),
            None => region_of_bytes(bytes@, region).is_none(),
        },
{
    if bytes.len() % 8 != 0 || bytes.len() < CHUNK_AREA * 8 {
        return None;
    }
    let mut v: Vec<(IVec2, SunBeam)> = Vec::new();
    let mut c: usize = 0;
    while c < CHUNK_AREA
        invariant
            c <= CHUNK_AREA,
            region_in_range(region),
            bytes@.len() >= CHUNK_AREA * 8,
            v@.len() == c,
            forall|j: int|
                0 <= j < c ==> #[trigger] v@[j] == (region_column(region, j), SunBeam {
                    bottom: i32_at(bytes@, 8 * j),
                    top: i32_at(bytes@, 8 * j + 4),
                }),
        decreases CHUNK_AREA - c,
    {
        let xz = IVec2 { x: region.x + (c % 32) as i32, y: region.y + (c / 32) as i32 };
        let bottom = read_i32(bytes, 8 * c);
        let top = read_i32(bytes, 8 * c + 4);
        v.push((xz, SunBeam { bottom, top }));
        c = c + 1;
    }
    proof {
        assert(v@ =~= region_of_bytes(bytes@, region).unwrap());
    }
    Some(v)
}

/// The origin of the region holding column `xz`.
pub open spec fn region_of(xz: IVec2) -> IVec2 {
    IVec2 { x: axis_origin(xz.x) as i32, y: axis_origin(xz.y) as i32 }
}

/// The keys of a map of the plane, each once.
fn plane_key_list<V>(m: &std::collections::HashMap<u64, V>) -> (r: Vec<u64>)
    ensures
        r@.to_set() == m@.dom(),
{
    let mut r: Vec<u64> = Vec::new();
    let keys = m.keys();
    let ghost all = vstd::std_specs::iter::IteratorSpec::remaining(&keys).unref();
    proof {
        vstd::std_specs::hash::axiom_spec_keys_iter(m);
        assert(all.to_set() == m@.dom());
    }
    for k in it: keys
        invariant
            r@ == it.seq().take(it.index() as int).unref(),
            all == it.seq().unref(),
    {
        r.push(*k);
    }
    proof {
        assert(r@ =~= all);
    }
    r
}

/// The origins of the regions holding a column with a stored beam, each
/// once.
pub fn sun_beam_regions(sun_beams: &SunBeams) -> (r: Vec<IVec2>)
    ensures
        forall|p: IVec2|
            #[trigger] r@.contains(p) <==> exists|k: u64|
                #[trigger] sun_beams.beams@.contains_key(k) && region_of(plane_pos(k)) == p,
        r@.no_duplicates(),
{
    let keys = plane_key_list(&sun_beams.beams);
    let mut seen: std::collections::HashSet<u64> = std::collections::HashSet::new();
    let mut r: Vec<IVec2> = Vec::new();
    let mut i: usize = 0;
    while i < keys.len()
        invariant
            i <= keys@.len(),
            keys@.to_set() == sun_beams.beams@.dom(),
            forall|p: IVec2|
                #[trigger] r@.contains(p) <==> exists|j: int| 0 <= j < i && region_of(plane_pos(#[trigger] keys@[j])) == p,
            forall|k: u64| #[trigger] seen@.contains(k) <==> r@.contains(plane_pos(k)) && plane_key(plane_pos(k)) == k,
            forall|p: IVec2| #[trigger] r@.contains(p) ==> seen@.contains(plane_key(p)),
            r@.no_duplicates(),
        decreases keys.len() - i,
    {
        let xz = IVec2::from_key(keys[i]);
        let rx = crate::universe::split_axis(xz.x).0;
        let rz = crate::universe::split_axis(xz.y).0;
        let region = IVec2 { x: rx, y: rz };
        let rk = region.key();
        let ghost r0 = r@;
        let ghost s0 = seen@;
        proof {
            assert(region == region_of(plane_pos(keys@[i as int])));
        }
        if !seen.contains(&rk) {
            seen.insert(rk);
            r.push(region);
            proof {
                assert(!r0.contains(region)) by {
                    if r0.contains(region) {
                        assert(s0.contains(plane_key(region)));
                    }
                }
                assert forall|a: int, b: int| 0 <= a < b < r@.len() implies r@[a] != r@[b] by {
                    if b == r@.len() - 1 {
                        assert(r0.contains(r@[a]));
                    }
                }
            }
        }
        proof {
            crate::ivec::lemma_plane_pos_inverse(rk);
            assert forall|p: IVec2|
                #[trigger] r@.contains(p) <==> exists|j: int| 0 <= j < i + 1 && region_of(plane_pos(#[trigger] keys@[j])) == p by {
                if r@.contains(p) && p != region {
                    let a = choose|a: int| 0 <= a < r@.len() && r@[a] == p;
                    assert(r0[a] == p);
                    assert(r0.contains(p));
                    let j = choose|j: int| 0 <= j < i && region_of(plane_pos(#[trigger] keys@[j])) == p;
                    assert(0 <= j < i + 1);
                }
                if p == region {
                    assert(region_of(plane_pos(keys@[i as int])) == p);
                    if s0.contains(rk) {
                        assert(r0.contains(plane_pos(rk)));
                        crate::ivec::lemma_plane_key_injective(plane_pos(rk), region);
                    }
                    assert(r@.contains(p)) by {
                        if !s0.contains(rk) {
                            assert(r@[r@.len() - 1] == p);
                        } else {
                            let a = choose|a: int| 0 <= a < r0.len() && r0[a] == p;
                            assert(r@[a] == p);
                        }
                    }
                }
                if exists|j: int| 0 <= j < i + 1 && region_of(plane_pos(#[trigger] keys@[j])) == p {
                    let j = choose|j: int| 0 <= j < i + 1 && region_of(plane_pos(#[trigger] keys@[j])) == p;
                    if j < i {
                        assert(r0.contains(p));
                        let a = choose|a: int| 0 <= a < r0.len() && r0[a] == p;
                        assert(r@[a] == p);
                    }
                }
            }
            assert forall|k: u64| #[trigger] seen@.contains(k) <==> r@.contains(plane_pos(k)) && plane_key(plane_pos(k)) == k by {
                crate::ivec::lemma_plane_pos_inverse(k);
                if k == rk {
                    if !s0.contains(rk) {
                        assert(r@[r@.len() - 1] == plane_pos(k));
                    }
                } else {
                    if r@.contains(plane_pos(k)) {
                        if plane_pos(k) == region {
                            crate::ivec::lemma_plane_pos_inverse(rk);
                        } else {
                            let a = choose|a: int| 0 <= a < r@.len() && r@[a] == plane_pos(k);
                            assert(r0[a] == plane_pos(k));
                        }
                    }
                    if s0.contains(k) {
                        let a = choose|a: int| 0 <= a < r0.len() && r0[a] == plane_pos(k);
                        assert(r@[a] == plane_pos(k));
                    }
                }
            }
            assert forall|p: IVec2| #[trigger] r@.contains(p) implies seen@.contains(plane_key(p)) by {
                if p != region {
                    let a = choose|a: int| 0 <= a < r@.len() && r@[a] == p;
                    assert(r0[a] == p);
                    assert(r0.contains(p));
                }
            }
        }
        i = i + 1;
    }
    proof {
        assert forall|p: IVec2|
            #[trigger] r@.contains(p) <==> exists|k: u64| #[trigger] sun_beams.beams@.contains_key(k) && region_of(plane_pos(k)) == p by {
            if r@.contains(p) {
                let j = choose|j: int| 0 <= j < keys@.len() && region_of(plane_pos(#[trigger] keys@[j])) == p;
                assert(keys@.to_set().contains(keys@[j]));
                assert(sun_beams.beams@.contains_key(keys@[j]));
            }
            if exists|k: u64| #[trigger] sun_beams.beams@.contains_key(k) && region_of(plane_pos(k)) == p {
                let k = choose|k: u64| #[trigger] sun_beams.beams@.contains_key(k) && region_of(plane_pos(k)) == p;
                assert(keys@.to_set().contains(k));
                let j = choose|j: int| 0 <= j < keys@.len() && keys@[j] == k;
                assert(region_of(plane_pos(keys@[j])) == p);
            }
        }
    }
    r
}

/// Whether every spawn chunk is loaded.
pub fn is_level_ready(universe: &Universe) -> (r: bool)
    ensures
        r == forall|i: int| 0 <= i < 27 ==> #[trigger] universe.chunk_at(crate::sun_beams::spawn_chunk(i)).is_some(),
{
    let spawn = crate::sun_beams::get_spawn_chunks();
    let mut i: usize = 0;
    while i < spawn.len()
        invariant
            i <= 27,
            spawn@.len() == 27,
            forall|j: int| 0 <= j < 27 ==> spawn@[j] == crate::sun_beams::spawn_chunk(j),
            forall|j: int| 0 <= j < i ==> #[trigger] universe.chunk_at(crate::sun_beams::spawn_chunk(j)).is_some(),
        decreases spawn.len() - i,
    {
        if !universe.contains_chunk(&spawn[i]) {
            proof {
                assert(!universe.chunk_at(crate::sun_beams::spawn_chunk(i as int)).is_some());
            }
            return false;
        }
        i = i + 1;
    }
    true
}

} // verus!
