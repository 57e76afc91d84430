//! Edits of the terrain and the bookkeeping of light sources waiting to be
//! propagated.
use vstd::prelude::*;
use std::collections::HashMap;
use crate::block::{Block, Blueprints, LightType};
use crate::chunk::{in_chunk, index_of, xyz2idx, Chunk};
use crate::ivec::{key_pos, lemma_key_pos_inverse, pos_key, IVec3};
use crate::lighting::{
    darker_block, ids_known, propagate_darkness, universe_darker, MAX_DARKNESS_PROPAGATION,
    lemma_only_brighter_refl, lemma_only_brighter_step, lemma_only_brighter_trans, near_chunk, only_brighter,
    propagate_light_chunk, light_at, settled, LightSource, MAX_LIGHTING_PROPAGATION,
};
use crate::CHUNK_VOLUME;
use crate::universe::{chunk_origin, inner_pos, is_chunk_origin, Universe};
use crate::sun_beams::{SunBeam, SunBeams};

verus! {

broadcast use vstd::std_specs::hash::group_hash_axioms;

/// One value for each kind of light.
#[derive(Debug, Clone)]
pub struct ByLight<T> {
    pub torch: T,
    pub sun: T,
}

impl<T> ByLight<T> {
    /// The value for light of kind `lt`.
    pub open spec fn at(&self, lt: LightType) -> T {
        match lt {
            LightType::Torch => self.torch,
            LightType::Sun => self.sun,
        }
    }

    /// The value for light of kind `lt`.
    pub fn get(&self, lt: LightType) -> (r: &T)
        ensures
            *r == self.at(lt),
    {
        match lt {
            LightType::Torch => &self.torch,
            LightType::Sun => &self.sun,
        }
    }
}

/// The light sources waiting in one chunk, relative to its origin.
#[derive(Debug, Clone)]
pub struct LightSourcesChunked {
    pub sources: Vec<LightSource>,
}

/// Light waiting to be propagated: sources grouped by the chunk they lie in,
/// and sources not yet grouped, each for both kinds of light.
#[derive(Debug)]
pub struct LightSources {
    pub chunked_sources: ByLight<HashMap<u128, LightSourcesChunked>>,
    pub leaked_sources: ByLight<Vec<LightSource>>,
}

/// The sources grouped under key `k` in a map of chunked sources.
pub open spec fn chunked_seq(m: Map<u128, LightSourcesChunked>, k: u128) -> Seq<LightSource> {
    if m.contains_key(k) {
        m[k].sources@
    } else {
        Seq::empty()
    }
}

/// The sources of `s` that lie in the chunk of key `k`, in order, made
/// relative to the origin of that chunk.
pub open spec fn group_for(s: Seq<LightSource>, k: u128) -> Seq<LightSource>
    decreases s.len(),
{
    if s.len() == 0 {
        Seq::empty()
    } else {
        let last = s.last();
        group_for(s.drop_last(), k) + if pos_key(chunk_origin(last.pos)) == k {
            seq![LightSource { pos: inner_pos(last.pos), brightness: last.brightness }]
        } else {
            Seq::empty()
        }
    }
}

/// Keys decode to chunk origins, and every grouped source lies inside its
/// chunk with a brightness in the light range.
pub open spec fn chunked_wf(m: Map<u128, LightSourcesChunked>) -> bool {
    forall|k: u128|
        #[trigger] m.contains_key(k) ==> {
            &&& pos_key(key_pos(k)) == k
            &&& is_chunk_origin(key_pos(k))
            &&& forall|i: int|
                #![trigger m[k].sources@[i]]
                0 <= i < m[k].sources@.len() ==> in_chunk(m[k].sources@[i].pos)
                    && m[k].sources@[i].brightness <= 15
        }
}

/// Every source of `s` has a brightness in the light range.
pub open spec fn sources_bright_ok(s: Seq<LightSource>) -> bool {
    forall|i: int| #![trigger s[i]] 0 <= i < s.len() ==> s[i].brightness <= 15
}

impl LightSources {
    pub open spec fn wf(&self) -> bool {
        &&& chunked_wf(self.chunked_sources.torch@)
        &&& chunked_wf(self.chunked_sources.sun@)
        &&& sources_bright_ok(self.leaked_sources.torch@)
        &&& sources_bright_ok(self.leaked_sources.sun@)
    }

    /// No waiting light.
    pub fn new() -> (r: LightSources)
        ensures
            r.wf(),
            r.chunked_sources.torch@ == Map::<u128, LightSourcesChunked>::empty(),
            r.chunked_sources.sun@ == Map::<u128, LightSourcesChunked>::empty(),
            r.leaked_sources.torch@ == Seq::<LightSource>::empty(),
            r.leaked_sources.sun@ == Seq::<LightSource>::empty(),
    {
        LightSources {
            chunked_sources: ByLight { torch: HashMap::new(), sun: HashMap::new() },
            leaked_sources: ByLight { torch: Vec::new(), sun: Vec::new() },
        }
    }
}

proof fn lemma_group_for_push(s: Seq<LightSource>, x: LightSource, k: u128)
    ensures
        group_for(s.push(x), k) == group_for(s, k) + if pos_key(chunk_origin(x.pos)) == k {
            seq![LightSource { pos: inner_pos(x.pos), brightness: x.brightness }]
        } else {
            Seq::empty()
        },
{
    assert(s.push(x).drop_last() =~= s);
}

proof fn lemma_group_for_wf(s: Seq<LightSource>, k: u128)
    requires
        sources_bright_ok(s),
    ensures
        forall|i: int|
            #![trigger group_for(s, k)[i]]
            0 <= i < group_for(s, k).len() ==> in_chunk(group_for(s, k)[i].pos) && group_for(
                s,
                k,
            )[i].brightness <= 15,
    decreases s.len(),
{
    if s.len() > 0 {
        lemma_group_for_wf(s.drop_last(), k);
        let g = group_for(s.drop_last(), k);
        assert forall|i: int|
            #![trigger group_for(s, k)[i]]
            0 <= i < group_for(s, k).len() implies in_chunk(group_for(s, k)[i].pos) && group_for(
                s,
                k,
            )[i].brightness <= 15 by {
            if i < g.len() {
                assert(group_for(s, k)[i] == g[i]);
            } else {
                assert(s.last() == s[s.len() - 1]);
            }
        }
    }
}

/// Groups `sources` (world positions) by chunk into `m`, as positions
/// relative to their chunk.
fn group_into(universe: &Universe, m: &mut HashMap<u128, LightSourcesChunked>, sources: &Vec<LightSource>)
    requires
        chunked_wf(old(m)@),
        sources_bright_ok(sources@),
    ensures
        chunked_wf(final(m)@),
        forall|k: u128| #[trigger] chunked_seq(final(m)@, k) == chunked_seq(old(m)@, k) + group_for(sources@, k),
        forall|k: u128|
            #[trigger] final(m)@.contains_key(k) <==> old(m)@.contains_key(k) || group_for(
                sources@,
                k,
            ).len() > 0,
{
    let mut i: usize = 0;
    while i < sources.len()
        invariant
            i <= sources@.len(),
            sources_bright_ok(sources@),
            chunked_wf(m@),
            forall|k: u128|
                #[trigger] chunked_seq(m@, k) == chunked_seq(old(m)@, k) + group_for(
                    sources@.subrange(0, i as int),
                    k,
                ),
            forall|k: u128|
                #[trigger] m@.contains_key(k) <==> old(m)@.contains_key(k) || group_for(
                    sources@.subrange(0, i as int),
                    k,
                ).len() > 0,
        decreases sources.len() - i,
    {
        let s = sources[i];
        let (chunk_pos, inner) = universe.pos_to_chunk_and_inner(&s.pos);
        let k = chunk_pos.key();
        let ghost before = m@;
        let entry = m.entry(k).or_insert(LightSourcesChunked { sources: Vec::new() });
        entry.sources.push(LightSource { pos: inner, brightness: s.brightness });
        proof {
            let item = LightSource { pos: inner, brightness: s.brightness };
            assert(sources@.subrange(0, i + 1) =~= sources@.subrange(0, i as int).push(s));
            lemma_group_for_push(sources@.subrange(0, i as int), s, k);
            lemma_key_pos_inverse(chunk_pos);
            assert(chunked_seq(m@, k) == chunked_seq(before, k).push(item));
            assert forall|kk: u128|
                #[trigger] chunked_seq(m@, kk) == chunked_seq(old(m)@, kk) + group_for(
                    sources@.subrange(0, i + 1),
                    kk,
                ) by {
                lemma_group_for_push(sources@.subrange(0, i as int), s, kk);
                if kk == k {
                    assert(chunked_seq(m@, kk) =~= chunked_seq(old(m)@, kk) + group_for(
                        sources@.subrange(0, i + 1),
                        kk,
                    ));
                } else {
                    assert(chunked_seq(m@, kk) == chunked_seq(before, kk));
                    assert(group_for(sources@.subrange(0, i + 1), kk) =~= group_for(
                        sources@.subrange(0, i as int),
                        kk,
                    ));
                }
            }
            assert forall|kk: u128|
                #[trigger] m@.contains_key(kk) <==> old(m)@.contains_key(kk) || group_for(
                    sources@.subrange(0, i + 1),
                    kk,
                ).len() > 0 by {
                lemma_group_for_push(sources@.subrange(0, i as int), s, kk);
            }
            assert forall|kk: u128| #[trigger] m@.contains_key(kk) implies {
                &&& pos_key(key_pos(kk)) == kk
                &&& is_chunk_origin(key_pos(kk))
                &&& forall|j: int|
                    #![trigger m@[kk].sources@[j]]
                    0 <= j < m@[kk].sources@.len() ==> in_chunk(m@[kk].sources@[j].pos)
                        && m@[kk].sources@[j].brightness <= 15
            } by {
                if kk != k {
                    assert(before.contains_key(kk));
                } else {
                    assert(s.brightness <= 15);
                    assert forall|j: int|
                        #![trigger m@[kk].sources@[j]]
                        0 <= j < m@[kk].sources@.len() implies in_chunk(m@[kk].sources@[j].pos)
                            && m@[kk].sources@[j].brightness <= 15 by {
                        if j < chunked_seq(before, k).len() {
                            assert(before.contains_key(k));
                            assert(m@[kk].sources@[j] == before[k].sources@[j]);
                        }
                    }
                }
            }
        }
        i = i + 1;
    }
    proof {
        assert(sources@.subrange(0, sources@.len() as int) =~= sources@);
    }
}

/// Groups the leaked sources of both kinds of light by the chunk they lie
/// in, appending them, made relative to their chunk, to that chunk's list.
pub fn group_leaked_light_into_chunks(universe: &Universe, leaked: ByLight<Vec<LightSource>>, light_sources: &mut LightSources)
    requires
        old(light_sources).wf(),
        sources_bright_ok(leaked.torch@),
        sources_bright_ok(leaked.sun@),
    ensures
        final(light_sources).wf(),
        final(light_sources).leaked_sources == old(light_sources).leaked_sources,
        forall|lt: LightType, k: u128|
            #[trigger] chunked_seq(final(light_sources).chunked_sources.at(lt)@, k) == chunked_seq(
                old(light_sources).chunked_sources.at(lt)@,
                k,
            ) + group_for(leaked.at(lt)@, k),
        forall|lt: LightType, k: u128|
            #[trigger] final(light_sources).chunked_sources.at(lt)@.contains_key(k)
                <==> old(light_sources).chunked_sources.at(lt)@.contains_key(k) || group_for(
                leaked.at(lt)@,
                k,
            ).len() > 0,
{
    group_into(universe, &mut light_sources.chunked_sources.torch, &leaked.torch);
    group_into(universe, &mut light_sources.chunked_sources.sun, &leaked.sun);
}

} // verus!

verus! {

/// The keys of a map, each once.
pub fn key_list<V>(m: &HashMap<u128, V>) -> (r: Vec<u128>)
    ensures
        r@.to_set() == m@.dom(),
        r@.no_duplicates(),
{
    let mut r: Vec<u128> = Vec::new();
    let keys = m.keys();
    let ghost all = vstd::std_specs::iter::IteratorSpec::remaining(&keys).unref();
    proof {
        vstd::std_specs::hash::axiom_spec_keys_iter(m);
        assert(all.to_set() == m@.dom());
    }
    for k in it: keys
        invariant
            r@ == it.seq().take(it.index() as int).unref(),
            all == it.seq().unref(),
    {
        r.push(*k);
    }
    proof {
        assert(r@ =~= all);
    }
    r
}


/// The keys of a map of beams, each once.
fn beam_key_list(m: &HashMap<u64, SunBeam>) -> (r: Vec<u64>)
    ensures
        r@.to_set() == m@.dom(),
{
    let mut r: Vec<u64> = Vec::new();
    let keys = m.keys();
    let ghost all = vstd::std_specs::iter::IteratorSpec::remaining(&keys).unref();
    proof {
        vstd::std_specs::hash::axiom_spec_keys_iter(m);
        assert(all.to_set() == m@.dom());
    }
    for k in it: keys
        invariant
            r@ == it.seq().take(it.index() as int).unref(),
            all == it.seq().unref(),
    {
        r.push(*k);
    }
    proof {
        assert(r@ =~= all);
    }
    r
}

/// Whether both ends of every stored beam lie in the safe range.
pub fn beams_in_range(sb: &SunBeams) -> (r: bool)
    ensures
        r == beams_safe(*sb),
{
    let keys = beam_key_list(&sb.beams);
    let lo: i32 = -0x8000_0000 + 0x10_0000;
    let hi: i32 = 0x7fff_ffff - 0x10_0000;
    let mut i: usize = 0;
    while i < keys.len()
        invariant
            i <= keys@.len(),
            keys@.to_set() == sb.beams@.dom(),
            lo == -0x8000_0000 + 0x10_0000,
            hi == 0x7fff_ffff - 0x10_0000,
            forall|j: int|
                0 <= j < i ==> beam_coord_safe(sb.beams@[#[trigger] keys@[j]].bottom as int) && beam_coord_safe(
                    sb.beams@[keys@[j]].top as int,
                ),
        decreases keys.len() - i,
    {
        let k = keys[i];
        proof {
            assert(keys@.to_set().contains(k));
        }
        let b = match sb.beams.get(&k) {
            Some(b) => *b,
            None => {
                proof {
                    assert(false);
                }
                return false;
            },
        };
        if !(lo <= b.bottom && b.bottom <= hi && lo <= b.top && b.top <= hi) {
            return false;
        }
        i = i + 1;
    }
    proof {
        assert forall|k: u64| #[trigger] sb.beams@.contains_key(k) implies beam_coord_safe(sb.beams@[k].bottom as int)
            && beam_coord_safe(sb.beams@[k].top as int) by {
            assert(keys@.to_set().contains(k));
            let j = choose|j: int| 0 <= j < keys@.len() && keys@[j] == k;
        }
    }
    true
}

/// Whether every loaded chunk has an origin in range (keys that encode no
/// chunk origin count as out of range).
pub fn universe_keys_in_range(u: &Universe) -> (r: bool)
    ensures
        r ==> universe_keys_ok(*u),
        (forall|k: u128| #[trigger] u.chunks@.contains_key(k) ==> (k as int) < 0x1_0000_0000_0000_0000_0000_0000)
            ==> (r == universe_keys_ok(*u)),
{
    let keys = key_list(&u.chunks);
    let mut i: usize = 0;
    while i < keys.len()
        invariant
            i <= keys@.len(),
            keys@.to_set() == u.chunks@.dom(),
            forall|j: int| 0 <= j < i ==> origin_in_range(key_pos(#[trigger] keys@[j])),
        decreases keys.len() - i,
    {
        let k = keys[i];
        if k >= 0x1_0000_0000_0000_0000_0000_0000u128 {
            proof {
                assert(keys@.to_set().contains(k));
            }
            return false;
        }
        let o = IVec3::from_key(k);
        let lo: i32 = -0x8000_0000 + 32;
        let hi: i32 = 0x7fff_ffff - 64;
        if !(lo <= o.x && o.x <= hi && lo <= o.y && o.y <= hi && lo <= o.z && o.z <= hi) {
            proof {
                assert(keys@.to_set().contains(k));
            }
            return false;
        }
        i = i + 1;
    }
    proof {
        assert forall|k: u128| #[trigger] u.chunks@.contains_key(k) implies origin_in_range(key_pos(k)) by {
            assert(keys@.to_set().contains(k));
            let j = choose|j: int| 0 <= j < keys@.len() && keys@[j] == k;
        }
    }
    true
}

/// Whether the blueprints know the identifier of every loaded block.
pub fn universe_ids_known(u: &Universe, bp: &Blueprints) -> (r: bool)
    requires
        u.wf(),
    ensures
        r == ids_known(*u, *bp),
{
    let keys = key_list(&u.chunks);
    let n = bp.blocks.len();
    let mut i: usize = 0;
    while i < keys.len()
        invariant
            i <= keys@.len(),
            u.wf(),
            n == bp.blocks@.len(),
            keys@.to_set() == u.chunks@.dom(),
            forall|j: int, b: int|
                #![trigger u.chunks@[keys@[j]].blocks@[b]]
                0 <= j < i && 0 <= b < CHUNK_VOLUME ==> (u.chunks@[keys@[j]].blocks@[b].id as int) < bp.blocks@.len(),
        decreases keys.len() - i,
    {
        let k = keys[i];
        proof {
            assert(keys@.to_set().contains(k));
        }
        let chunk = match u.chunks.get(&k) {
            Some(c) => c,
            None => {
                proof {
                    assert(false);
                }
                return false;
            },
        };
        let mut b: usize = 0;
        while b < CHUNK_VOLUME
            invariant
                b <= CHUNK_VOLUME,
                chunk.wf(),
                u.chunks@.contains_key(k),
                *chunk == u.chunks@[k],
                n == bp.blocks@.len(),
                forall|c: int| 0 <= c < b ==> (#[trigger] chunk.blocks@[c].id as int) < bp.blocks@.len(),
            decreases CHUNK_VOLUME - b,
        {
            if chunk.blocks[b].id as usize >= n {
                proof {
                    assert(u.chunks@.contains_key(k));
                    assert(u.chunks@[k].blocks@[b as int] == chunk.blocks@[b as int]);
                    assert(!((u.chunks@[k].blocks@[b as int].id as int) < bp.blocks@.len()));
                }
                return false;
            }
            b = b + 1;
        }
        i = i + 1;
    }
    proof {
        assert forall|k: u128, b: int|
            #![trigger u.chunks@[k].blocks@[b]]
            u.chunks@.contains_key(k) && 0 <= b < CHUNK_VOLUME implies (u.chunks@[k].blocks@[b].id as int)
                < bp.blocks@.len() by {
            assert(keys@.to_set().contains(k));
            let j = choose|j: int| 0 <= j < keys@.len() && keys@[j] == k;
            assert(u.chunks@[keys@[j]].blocks@[b] == u.chunks@[k].blocks@[b]);
        }
    }
    true
}

} // verus!

verus! {

/// Both lights of `b` are at least those of `a`, nothing else differs, and
/// only a block that lets light through changed.
pub open spec fn brighter_block(a: Block, b: Block) -> bool {
    &&& b.id == a.id
    &&& b.properties == a.properties
    &&& b.light_of(LightType::Torch) >= a.light_of(LightType::Torch)
    &&& b.light_of(LightType::Sun) >= a.light_of(LightType::Sun)
    &&& (b.light_of(LightType::Torch) != a.light_of(LightType::Torch) || b.light_of(LightType::Sun)
        != a.light_of(LightType::Sun)) ==> !a.is_opaque()
}

/// `b` holds the same chunks as `a`, well formed, with brighter blocks.
pub open spec fn universe_brighter(a: Universe, b: Universe) -> bool {
    &&& a.chunks@.dom() == b.chunks@.dom()
    &&& forall|k: u128|
        #[trigger] b.chunks@.contains_key(k) ==> b.chunks@[k].wf() && forall|i: int|
            0 <= i < CHUNK_VOLUME ==> brighter_block(
                a.chunks@[k].blocks@[i],
                #[trigger] b.chunks@[k].blocks@[i],
            )
}

proof fn lemma_brighter_trans(a: Universe, b: Universe, c: Universe)
    requires
        universe_brighter(a, b),
        universe_brighter(b, c),
    ensures
        universe_brighter(a, c),
{
    assert forall|k: u128| #[trigger] c.chunks@.contains_key(k) implies c.chunks@[k].wf() && forall|i: int|
        0 <= i < CHUNK_VOLUME ==> brighter_block(
            a.chunks@[k].blocks@[i],
            #[trigger] c.chunks@[k].blocks@[i],
        ) by {
        assert(b.chunks@.contains_key(k));
        assert forall|i: int| 0 <= i < CHUNK_VOLUME implies brighter_block(
            a.chunks@[k].blocks@[i],
            #[trigger] c.chunks@[k].blocks@[i],
        ) by {
            assert(brighter_block(a.chunks@[k].blocks@[i], b.chunks@[k].blocks@[i]));
            assert(brighter_block(b.chunks@[k].blocks@[i], c.chunks@[k].blocks@[i]));
        }
    }
}

/// Every source of `s` lies inside a chunk and is in the light range.
pub open spec fn chunk_sources_ok(s: Seq<LightSource>) -> bool {
    forall|i: int| #![trigger s[i]] 0 <= i < s.len() ==> in_chunk(s[i].pos) && s[i].brightness <= 15
}

/// Each source of `s` that falls on a block letting light through in `before`
/// has lit that block at least to its brightness in `after`.
pub open spec fn sources_applied(before: Seq<Block>, after: Seq<Block>, s: Seq<LightSource>, lt: LightType) -> bool {
    forall|i: int|
        #![trigger s[i]]
        0 <= i < s.len() && !before[index_of(s[i].pos)].is_opaque() ==> after[index_of(
            s[i].pos,
        )].light_of(lt) >= s[i].brightness
}

/// Lights the blocks of `chunk` at `sources` (each that lets light through
/// and is not brighter already) and propagates that light through the
/// chunk; returns the light that leaves the chunk, relative to its origin.
/// The chunk's version advances by one.
pub fn apply_chunk_sources(chunk: &mut Chunk, sources: &Vec<LightSource>, lt: LightType) -> (r: Vec<LightSource>)
    requires
        old(chunk).wf(),
        chunk_sources_ok(sources@),
    ensures
        final(chunk).wf(),
        final(chunk).version == old(chunk).version.wrapping_add(1),
        final(chunk).properties == old(chunk).properties,
        only_brighter(old(chunk).blocks@, final(chunk).blocks@, lt),
        sources_applied(old(chunk).blocks@, final(chunk).blocks@, sources@, lt),
        forall|i: int|
            #![trigger r@[i]]
            0 <= i < r@.len() ==> !in_chunk(r@[i].pos) && near_chunk(r@[i].pos) && r@[i].brightness < 15,
        sources@.len() + 15 * CHUNK_VOLUME < MAX_LIGHTING_PROPAGATION ==> forall|p: IVec3|
            in_chunk(p) && light_at(final(chunk).blocks@, p, lt) != light_at(old(chunk).blocks@, p, lt)
                ==> #[trigger] settled(final(chunk).blocks@, r@, p, lt),
{
    let ghost b0 = chunk.blocks@;
    chunk.version = chunk.version.wrapping_add(1);
    let mut lit: Vec<IVec3> = Vec::new();
    let mut i: usize = 0;
    proof {
        lemma_only_brighter_refl(b0, lt);
    }
    while i < sources.len()
        invariant
            i <= sources@.len(),
            chunk.wf(),
            chunk.version == old(chunk).version.wrapping_add(1),
            chunk.properties == old(chunk).properties,
            chunk_sources_ok(sources@),
            only_brighter(b0, chunk.blocks@, lt),
            forall|j: int| 0 <= j < lit@.len() ==> in_chunk(#[trigger] lit@[j]),
            sources_applied(b0, chunk.blocks@, sources@.subrange(0, i as int), lt),
            lit@.len() <= i,
            b0.len() == CHUNK_VOLUME,
            forall|p: IVec3|
                in_chunk(p) && #[trigger] light_at(chunk.blocks@, p, lt) != light_at(b0, p, lt) ==> lit@.contains(p),
        decreases sources.len() - i,
    {
        let source = sources[i];
        let idx = xyz2idx(source.pos);
        let mut block = chunk.blocks[idx];
        let ghost before = chunk.blocks@;
        let ghost lit0 = lit@;
        if block.get_light(lt) <= source.brightness && !block.opaque() {
            block.set_light(lt, source.brightness);
            chunk.blocks.set(idx, block);
            lit.push(source.pos);
            proof {
                lemma_only_brighter_step(before, idx as int, block, lt);
                assert(chunk.blocks@ == before.update(idx as int, block));
                lemma_only_brighter_trans(b0, before, chunk.blocks@, lt);
                assert forall|p: IVec3|
                    in_chunk(p) && #[trigger] light_at(chunk.blocks@, p, lt) != light_at(b0, p, lt) implies lit@.contains(
                    p,
                ) by {
                    if p == source.pos {
                        assert(lit@[lit@.len() - 1] == p);
                    } else {
                        crate::chunk::lemma_index_of_pos(p);
                        crate::chunk::lemma_index_of_pos(source.pos);
                        if index_of(p) == index_of(source.pos) {
                            crate::chunk::lemma_index_injective(p, source.pos);
                        }
                        assert(light_at(before, p, lt) != light_at(b0, p, lt));
                        assert(lit0.contains(p));
                        let j = choose|j: int| 0 <= j < lit0.len() && lit0[j] == p;
                        assert(lit@[j] == p);
                    }
                }
            }
        }
        proof {
            let s1 = sources@.subrange(0, i + 1);
            assert forall|j: int|
                #![trigger s1[j]]
                0 <= j < s1.len() && !b0[index_of(s1[j].pos)].is_opaque() implies chunk.blocks@[index_of(
                    s1[j].pos,
                )].light_of(lt) >= s1[j].brightness by {
                crate::chunk::lemma_index_of_pos(s1[j].pos);
                if j < i {
                    assert(sources@.subrange(0, i as int)[j] == s1[j]);
                    assert(before[index_of(s1[j].pos)].light_of(lt) >= s1[j].brightness);
                    assert(chunk.blocks@[index_of(s1[j].pos)].id == before[index_of(s1[j].pos)].id);
                } else {
                    assert(s1[j] == source);
                    assert(b0[idx as int].id == chunk.blocks@[idx as int].id);
                    assert(before[idx as int].id == b0[idx as int].id);
                }
            }
        }
        i = i + 1;
    }
    proof {
        assert(sources@.subrange(0, sources@.len() as int) =~= sources@);
    }
    let ghost b1 = chunk.blocks@;
    let ghost lit1 = lit@;
    if lit.len() > 0 {
        let leaked = propagate_light_chunk(&mut chunk.blocks, lit, lt);
        proof {
            assert forall|p: IVec3|
                in_chunk(p) && light_at(chunk.blocks@, p, lt) != light_at(b0, p, lt) && sources@.len() + 15 * CHUNK_VOLUME
                    < MAX_LIGHTING_PROPAGATION implies #[trigger] settled(chunk.blocks@, leaked@, p, lt) by {
                if light_at(b1, p, lt) != light_at(b0, p, lt) {
                    assert(lit1.contains(p));
                }
            }
            lemma_only_brighter_trans(b0, b1, chunk.blocks@, lt);
            assert forall|j: int|
                #![trigger sources@[j]]
                0 <= j < sources@.len() && !b0[index_of(sources@[j].pos)].is_opaque() implies chunk.blocks@[index_of(
                    sources@[j].pos,
                )].light_of(lt) >= sources@[j].brightness by {
                crate::chunk::lemma_index_of_pos(sources@[j].pos);
                assert(chunk.blocks@[index_of(sources@[j].pos)].id == b1[index_of(sources@[j].pos)].id);
            }
        }
        leaked
    } else {
        Vec::new()
    }
}

} // verus!

verus! {

/// Chunk origin far enough from the integer limits for positions next to the
/// chunk to exist.
pub open spec fn origin_in_range(p: IVec3) -> bool {
    &&& -0x8000_0000 + 32 <= p.x <= 0x7fff_ffff - 64
    &&& -0x8000_0000 + 32 <= p.y <= 0x7fff_ffff - 64
    &&& -0x8000_0000 + 32 <= p.z <= 0x7fff_ffff - 64
}

/// Every loaded chunk has an origin in range.
pub open spec fn universe_keys_ok(u: Universe) -> bool {
    forall|k: u128| #[trigger] u.chunks@.contains_key(k) ==> origin_in_range(key_pos(k))
}

proof fn lemma_brighter_refl(u: Universe)
    requires
        u.wf(),
    ensures
        universe_brighter(u, u),
{
}

proof fn lemma_applied_persists(a: Seq<Block>, b: Seq<Block>, c: Seq<Block>, s: Seq<LightSource>, lt: LightType)
    requires
        a.len() == CHUNK_VOLUME,
        b.len() == CHUNK_VOLUME,
        c.len() == CHUNK_VOLUME,
        chunk_sources_ok(s),
        sources_applied(a, b, s, lt),
        forall|i: int| 0 <= i < CHUNK_VOLUME ==> brighter_block(a[i], #[trigger] c[i]),
        forall|i: int| 0 <= i < CHUNK_VOLUME ==> brighter_block(b[i], #[trigger] c[i]),
    ensures
        sources_applied(a, c, s, lt),
{
    assert forall|i: int|
        #![trigger s[i]]
        0 <= i < s.len() && !a[index_of(s[i].pos)].is_opaque() implies c[index_of(s[i].pos)].light_of(
            lt,
        ) >= s[i].brightness by {
        crate::chunk::lemma_index_of_pos(s[i].pos);
        let j = index_of(s[i].pos);
        assert(brighter_block(b[j], c[j]));
    }
}

proof fn lemma_brighter_insert(before: Universe, after: Universe, k: u128, chunk: Chunk, lt: LightType)
    requires
        before.wf(),
        before.chunks@.contains_key(k),
        chunk.wf(),
        only_brighter(before.chunks@[k].blocks@, chunk.blocks@, lt),
        after.chunks@ == before.chunks@.insert(k, chunk),
    ensures
        universe_brighter(before, after),
        after.wf(),
{
    assert(after.chunks@.dom() =~= before.chunks@.dom());
    assert forall|kk: u128| #[trigger] after.chunks@.contains_key(kk) implies after.chunks@[kk].wf() && forall|i: int|
        0 <= i < CHUNK_VOLUME ==> brighter_block(
            before.chunks@[kk].blocks@[i],
            #[trigger] after.chunks@[kk].blocks@[i],
        ) by {
        if kk == k {
            assert forall|i: int| 0 <= i < CHUNK_VOLUME implies brighter_block(
                before.chunks@[kk].blocks@[i],
                #[trigger] after.chunks@[kk].blocks@[i],
            ) by {
                assert(after.chunks@[kk].blocks@[i].id == before.chunks@[kk].blocks@[i].id);
                assert(forall|o: LightType| o != lt ==> after.chunks@[kk].blocks@[i].light_of(o) == before.chunks@[kk].blocks@[i].light_of(o));
                if lt == LightType::Torch {
                    assert(LightType::Sun != lt);
                } else {
                    assert(LightType::Torch != lt);
                }
            }
        }
    }
}

proof fn lemma_applied_from_earlier(a: Seq<Block>, b: Seq<Block>, c: Seq<Block>, s: Seq<LightSource>, lt: LightType)
    requires
        a.len() == CHUNK_VOLUME,
        b.len() == CHUNK_VOLUME,
        chunk_sources_ok(s),
        sources_applied(b, c, s, lt),
        forall|i: int| 0 <= i < CHUNK_VOLUME ==> brighter_block(a[i], #[trigger] b[i]),
    ensures
        sources_applied(a, c, s, lt),
{
    assert forall|i: int|
        #![trigger s[i]]
        0 <= i < s.len() && !a[index_of(s[i].pos)].is_opaque() implies c[index_of(s[i].pos)].light_of(
            lt,
        ) >= s[i].brightness by {
        crate::chunk::lemma_index_of_pos(s[i].pos);
        let j = index_of(s[i].pos);
        assert(brighter_block(a[j], b[j]));
    }
}

/// Light of kind `lt` has been passed on, in the chunk of origin `origin`
/// with blocks `b`, from every block whose light differs from that in `b0`;
/// light leaving the chunk is among the world sources `dst`.
pub open spec fn chunk_settled(b0: Seq<Block>, b: Seq<Block>, dst: Seq<LightSource>, origin: IVec3, lt: LightType) -> bool {
    forall|p: IVec3|
        in_chunk(p) && light_at(b, p, lt) != light_at(b0, p, lt) ==> #[trigger] crate::generation::settled_world(
            b,
            dst,
            origin,
            p,
            lt,
        )
}

/// Every chunk of `a` keeps its flags and identifiers in `b`, with light of
/// kind `lt` only raised, at blocks letting light through.
pub open spec fn universe_only_brighter(a: Universe, b: Universe, lt: LightType) -> bool {
    &&& a.chunks@.dom() == b.chunks@.dom()
    &&& forall|k: u128|
        #[trigger] b.chunks@.contains_key(k) ==> only_brighter(a.chunks@[k].blocks@, b.chunks@[k].blocks@, lt)
}

proof fn lemma_chunk_settled_grow(b0: Seq<Block>, b: Seq<Block>, d1: Seq<LightSource>, d2: Seq<LightSource>, origin: IVec3, lt: LightType)
    requires
        b.len() == CHUNK_VOLUME,
        d1.len() <= d2.len(),
        forall|j: int| 0 <= j < d1.len() ==> d2[j] == d1[j],
        chunk_settled(b0, b, d1, origin, lt),
    ensures
        chunk_settled(b0, b, d2, origin, lt),
{
    assert(d1.is_prefix_of(d2)) by {
        assert(d2.subrange(0, d1.len() as int) =~= d1);
    }
    assert forall|p: IVec3|
        in_chunk(p) && light_at(b, p, lt) != light_at(b0, p, lt) implies #[trigger] crate::generation::settled_world(
        b,
        d2,
        origin,
        p,
        lt,
    ) by {
        crate::generation::lemma_settled_world_keep(b, b, d1, d2, origin, p, lt);
    }
}

proof fn lemma_chunk_settled_from_leaks(
    b0: Seq<Block>,
    b: Seq<Block>,
    leaks: Seq<LightSource>,
    dst: Seq<LightSource>,
    base: int,
    origin: IVec3,
    lt: LightType,
)
    requires
        b.len() == CHUNK_VOLUME,
        0 <= base,
        base + leaks.len() <= dst.len(),
        forall|j: int| 0 <= j < leaks.len() ==> dst[base + j] == crate::generation::to_world(#[trigger] leaks[j], origin),
        forall|p: IVec3|
            in_chunk(p) && light_at(b, p, lt) != light_at(b0, p, lt) ==> #[trigger] settled(b, leaks, p, lt),
    ensures
        chunk_settled(b0, b, dst, origin, lt),
{
    assert forall|p: IVec3|
        in_chunk(p) && light_at(b, p, lt) != light_at(b0, p, lt) implies #[trigger] crate::generation::settled_world(
        b,
        dst,
        origin,
        p,
        lt,
    ) by {
        assert(settled(b, leaks, p, lt));
        assert forall|d: int| 0 <= d < 6 implies #[trigger] crate::generation::dir_settled_world(b, dst, origin, p, d, lt) by {
            assert(crate::lighting::dir_settled(b, leaks, p, d, lt));
            let q = crate::lighting::step(p, d);
            let l = light_at(b, p, lt);
            if !in_chunk(q) && l > 0 {
                let src = LightSource { pos: q, brightness: (l - 1) as u8 };
                assert(leaks.contains(src));
                let i = choose|i: int| 0 <= i < leaks.len() && leaks[i] == src;
                assert(dst[base + i] == crate::generation::to_world(src, origin));
            }
        }
    }
}

proof fn lemma_process_step_settled(
    u0: Universe,
    before: Universe,
    after: Universe,
    keys: Seq<u128>,
    n: int,
    k: u128,
    chunk: Chunk,
    c0: Chunk,
    chunked: Map<u128, LightSourcesChunked>,
    leaked_before: Seq<LightSource>,
    leaked: Seq<LightSource>,
    leaks: Seq<LightSource>,
    lt: LightType,
)
    requires
        0 <= n < keys.len(),
        keys[n] == k,
        keys.no_duplicates(),
        before.chunks@.contains_key(k),
        c0 == before.chunks@[k],
        c0.blocks@.len() == CHUNK_VOLUME,
        after.chunks@ == before.chunks@.insert(k, chunk),
        chunk.blocks@.len() == CHUNK_VOLUME,
        only_brighter(c0.blocks@, chunk.blocks@, lt),
        chunked.contains_key(k),
        chunked[k].sources@.len() + 15 * CHUNK_VOLUME < MAX_LIGHTING_PROPAGATION ==> forall|p: IVec3|
            in_chunk(p) && light_at(chunk.blocks@, p, lt) != light_at(c0.blocks@, p, lt) ==> #[trigger] settled(
                chunk.blocks@,
                leaks,
                p,
                lt,
            ),
        leaked.len() == leaked_before.len() + leaks.len(),
        forall|j: int| 0 <= j < leaked_before.len() ==> leaked[j] == leaked_before[j],
        forall|j: int|
            0 <= j < leaks.len() ==> leaked[leaked_before.len() + j] == crate::generation::to_world(
                #[trigger] leaks[j],
                key_pos(k),
            ),
        universe_only_brighter(u0, before, lt),
        forall|kk: u128|
            #[trigger] before.chunks@.contains_key(kk) && !keys.subrange(0, n).contains(kk) ==> before.chunks@[kk]
                == u0.chunks@[kk],
        forall|j: int|
            0 <= j < n && u0.chunks@.contains_key(#[trigger] keys[j]) && chunked[keys[j]].sources@.len() + 15
                * CHUNK_VOLUME < MAX_LIGHTING_PROPAGATION ==> chunk_settled(
                u0.chunks@[keys[j]].blocks@,
                before.chunks@[keys[j]].blocks@,
                leaked_before,
                key_pos(keys[j]),
                lt,
            ),
        forall|kk: u128| #[trigger] before.chunks@.contains_key(kk) ==> before.chunks@[kk].blocks@.len() == CHUNK_VOLUME,
    ensures
        universe_only_brighter(u0, after, lt),
        forall|kk: u128|
            #[trigger] after.chunks@.contains_key(kk) && !keys.subrange(0, n + 1).contains(kk) ==> after.chunks@[kk]
                == u0.chunks@[kk],
        forall|j: int|
            0 <= j < n + 1 && u0.chunks@.contains_key(#[trigger] keys[j]) && chunked[keys[j]].sources@.len() + 15
                * CHUNK_VOLUME < MAX_LIGHTING_PROPAGATION ==> chunk_settled(
                u0.chunks@[keys[j]].blocks@,
                after.chunks@[keys[j]].blocks@,
                leaked,
                key_pos(keys[j]),
                lt,
            ),
{
    assert(!keys.subrange(0, n).contains(k)) by {
        if keys.subrange(0, n).contains(k) {
            let j = choose|j: int| 0 <= j < n && keys.subrange(0, n)[j] == k;
            assert(keys[j] == k);
        }
    }
    assert(c0 == u0.chunks@[k]);
    assert(after.chunks@.dom() =~= before.chunks@.dom());
    assert forall|kk: u128| #[trigger] after.chunks@.contains_key(kk) implies only_brighter(
        u0.chunks@[kk].blocks@,
        after.chunks@[kk].blocks@,
        lt,
    ) by {
        if kk != k {
            assert(before.chunks@.contains_key(kk));
        }
    }
    assert forall|kk: u128|
        #[trigger] after.chunks@.contains_key(kk) && !keys.subrange(0, n + 1).contains(kk) implies after.chunks@[kk]
            == u0.chunks@[kk] by {
        assert(kk != k) by {
            if kk == k {
                assert(keys.subrange(0, n + 1)[n] == k);
            }
        }
        assert(before.chunks@.contains_key(kk));
        if keys.subrange(0, n).contains(kk) {
            let j = choose|j: int| 0 <= j < n && keys.subrange(0, n)[j] == kk;
            assert(keys.subrange(0, n + 1)[j] == kk);
        }
    }
    assert forall|j: int|
        0 <= j < n + 1 && u0.chunks@.contains_key(#[trigger] keys[j]) && chunked[keys[j]].sources@.len() + 15
            * CHUNK_VOLUME < MAX_LIGHTING_PROPAGATION implies chunk_settled(
            u0.chunks@[keys[j]].blocks@,
            after.chunks@[keys[j]].blocks@,
            leaked,
            key_pos(keys[j]),
            lt,
        ) by {
        if j < n {
            assert(keys[j] != k);
            assert(after.chunks@[keys[j]] == before.chunks@[keys[j]]);
            lemma_chunk_settled_grow(
                u0.chunks@[keys[j]].blocks@,
                before.chunks@[keys[j]].blocks@,
                leaked_before,
                leaked,
                key_pos(keys[j]),
                lt,
            );
        } else {
            lemma_chunk_settled_from_leaks(
                c0.blocks@,
                chunk.blocks@,
                leaks,
                leaked,
                leaked_before.len() as int,
                key_pos(k),
                lt,
            );
        }
    }
}

/// Applies the sources of kind `lt` waiting in `chunked` to every loaded chunk
/// that has some, appending the light that leaves those chunks (as world
/// positions) to `leaked` and their keys to `processed`.
fn process_light_type(
    universe: &mut Universe,
    chunked: &HashMap<u128, LightSourcesChunked>,
    lt: LightType,
    leaked: &mut Vec<LightSource>,
    processed: &mut Vec<u128>,
)
    requires
        old(universe).wf(),
        universe_keys_ok(*old(universe)),
        chunked_wf(chunked@),
        sources_bright_ok(old(leaked)@),
        forall|j: int| 0 <= j < old(processed)@.len() ==> old(universe).chunks@.contains_key(#[trigger] old(processed)@[j]),
    ensures
        final(universe).wf(),
        universe_keys_ok(*final(universe)),
        universe_brighter(*old(universe), *final(universe)),
        sources_bright_ok(final(leaked)@),
        old(leaked)@.len() <= final(leaked)@.len(),
        forall|j: int| 0 <= j < old(leaked)@.len() ==> final(leaked)@[j] == old(leaked)@[j],
        forall|j: int| 0 <= j < final(processed)@.len() ==> final(universe).chunks@.contains_key(#[trigger] final(processed)@[j]),
        forall|j: int| 0 <= j < old(processed)@.len() ==> final(processed)@[j] == old(processed)@[j],
        old(processed)@.len() <= final(processed)@.len(),
        forall|k: u128|
            #[trigger] chunked@.contains_key(k) && old(universe).chunks@.contains_key(k) ==> final(processed)@.contains(k)
                && sources_applied(
                old(universe).chunks@[k].blocks@,
                final(universe).chunks@[k].blocks@,
                chunked@[k].sources@,
                lt,
            ),
        universe_only_brighter(*old(universe), *final(universe), lt),
        forall|k: u128|
            #[trigger] final(universe).chunks@.contains_key(k) && !chunked@.contains_key(k) ==> final(universe).chunks@[k]
                == old(universe).chunks@[k],
        forall|k: u128|
            #[trigger] chunked@.contains_key(k) && old(universe).chunks@.contains_key(k) && chunked@[k].sources@.len() + 15
                * CHUNK_VOLUME < MAX_LIGHTING_PROPAGATION ==> chunk_settled(
                old(universe).chunks@[k].blocks@,
                final(universe).chunks@[k].blocks@,
                final(leaked)@,
                key_pos(k),
                lt,
            ),
{
    let ghost u0 = *universe;
    let keys = key_list(chunked);
    proof {
        assert forall|kk: u128| #[trigger] u0.chunks@.contains_key(kk) implies only_brighter(
            u0.chunks@[kk].blocks@,
            u0.chunks@[kk].blocks@,
            lt,
        ) by {
            lemma_only_brighter_refl(u0.chunks@[kk].blocks@, lt);
        }
    }
    proof {
        lemma_brighter_refl(u0);
    }
    let mut n: usize = 0;
    while n < keys.len()
        invariant
            n <= keys@.len(),
            keys@.to_set() == chunked@.dom(),
            keys@.no_duplicates(),
            chunked_wf(chunked@),
            universe.wf(),
            u0.wf(),
            universe_keys_ok(*universe),
            universe_brighter(u0, *universe),
            sources_bright_ok(leaked@),
            old(leaked)@.len() <= leaked@.len(),
            forall|j: int| 0 <= j < old(leaked)@.len() ==> leaked@[j] == old(leaked)@[j],
            forall|j: int| 0 <= j < processed@.len() ==> universe.chunks@.contains_key(#[trigger] processed@[j]),
            forall|j: int| 0 <= j < old(processed)@.len() ==> processed@[j] == old(processed)@[j],
            old(processed)@.len() <= processed@.len(),
            forall|j: int|
                0 <= j < n && u0.chunks@.contains_key(#[trigger] keys@[j]) ==> processed@.contains(keys@[j])
                    && sources_applied(
                    u0.chunks@[keys@[j]].blocks@,
                    universe.chunks@[keys@[j]].blocks@,
                    chunked@[keys@[j]].sources@,
                    lt,
                ),
            universe_only_brighter(u0, *universe, lt),
            forall|kk: u128|
                #[trigger] universe.chunks@.contains_key(kk) && !keys@.subrange(0, n as int).contains(kk)
                    ==> universe.chunks@[kk] == u0.chunks@[kk],
            forall|j: int|
                0 <= j < n && u0.chunks@.contains_key(#[trigger] keys@[j]) && chunked@[keys@[j]].sources@.len() + 15
                    * CHUNK_VOLUME < MAX_LIGHTING_PROPAGATION ==> chunk_settled(
                    u0.chunks@[keys@[j]].blocks@,
                    universe.chunks@[keys@[j]].blocks@,
                    leaked@,
                    key_pos(keys@[j]),
                    lt,
                ),
        decreases keys.len() - n,
    {
        let k = keys[n];
        proof {
            assert(keys@.to_set().contains(k));
        }
        let ghost before = *universe;
        let ghost proc_before = processed@;
        let ghost leaked_before = leaked@;
        if universe.chunks.contains_key(&k) {
            processed.push(k);
            let mut chunk = match universe.chunks.remove(&k) {
                Some(c) => c,
                None => Chunk::empty(),
            };
            let list = match chunked.get(&k) {
                Some(l) => l,
                None => {
                    proof {
                        assert(false);
                    }
                    return;
                },
            };
            proof {
                assert(chunked@.contains_key(k));
                assert(chunk == before.chunks@[k]);
                assert(chunk_sources_ok(list.sources@));
            }
            let ghost c0 = chunk;
            let leaks = apply_chunk_sources(&mut chunk, &list.sources, lt);
            let origin = IVec3::from_key(k);
            proof {
                assert(origin_in_range(origin));
            }
            let mut m: usize = 0;
            while m < leaks.len()
                invariant
                    m <= leaks@.len(),
                    origin == key_pos(k),
                    origin_in_range(origin),
                    forall|j: int|
                        #![trigger leaks@[j]]
                        0 <= j < leaks@.len() ==> !in_chunk(leaks@[j].pos) && near_chunk(leaks@[j].pos) && leaks@[j].brightness < 15,
                    sources_bright_ok(leaked@),
                    leaked_before.len() <= leaked@.len(),
                    forall|j: int| 0 <= j < leaked_before.len() ==> leaked@[j] == leaked_before[j],
                    leaked@.len() == leaked_before.len() + m,
                    forall|j: int|
                        0 <= j < m ==> leaked@[leaked_before.len() + j] == crate::generation::to_world(
                            #[trigger] leaks@[j],
                            origin,
                        ),
                decreases leaks.len() - m,
            {
                let l = leaks[m];
                proof {
                    assert(near_chunk(l.pos));
                }
                let world = l.pos.add(&origin);
                leaked.push(LightSource { pos: world, brightness: l.brightness });
                proof {
                    assert(leaked@[leaked_before.len() + m] == crate::generation::to_world(leaks@[m as int], origin));
                }
                m = m + 1;
            }
            universe.chunks.insert(k, chunk);
            proof {
                assert(universe.chunks@ == before.chunks@.insert(k, chunk));
                lemma_brighter_insert(before, *universe, k, chunk, lt);
                lemma_brighter_trans(u0, before, *universe);
                assert(u0.chunks@.contains_key(k));
                lemma_applied_from_earlier(
                    u0.chunks@[k].blocks@,
                    before.chunks@[k].blocks@,
                    universe.chunks@[k].blocks@,
                    list.sources@,
                    lt,
                );
                assert(processed@[processed@.len() - 1] == k);
                assert forall|j: int|
                    0 <= j < n + 1 && u0.chunks@.contains_key(#[trigger] keys@[j]) implies processed@.contains(keys@[j])
                        && sources_applied(
                        u0.chunks@[keys@[j]].blocks@,
                        universe.chunks@[keys@[j]].blocks@,
                        chunked@[keys@[j]].sources@,
                        lt,
                    ) by {
                    if j < n {
                        assert(keys@[j] != k);
                        assert(proc_before.contains(keys@[j]));
                        let q = choose|q: int| 0 <= q < proc_before.len() && proc_before[q] == keys@[j];
                        assert(processed@[q] == keys@[j]);
                        assert(universe.chunks@[keys@[j]] == before.chunks@[keys@[j]]);
                    }
                }
                lemma_process_step_settled(u0, before, *universe, keys@, n as int, k, chunk, c0, chunked@, leaked_before, leaked@, leaks@, lt);
            }
        } else {
            proof {
                assert forall|j: int|
                    0 <= j < n + 1 && u0.chunks@.contains_key(#[trigger] keys@[j]) implies processed@.contains(keys@[j])
                        && sources_applied(
                        u0.chunks@[keys@[j]].blocks@,
                        universe.chunks@[keys@[j]].blocks@,
                        chunked@[keys@[j]].sources@,
                        lt,
                    ) by {
                    if j == n {
                        assert(u0.chunks@.dom() == universe.chunks@.dom());
                    }
                }
                assert forall|kk: u128|
                    #[trigger] universe.chunks@.contains_key(kk) && !keys@.subrange(0, n + 1).contains(kk)
                        implies universe.chunks@[kk] == u0.chunks@[kk] by {
                    if keys@.subrange(0, n as int).contains(kk) {
                        let j = choose|j: int| 0 <= j < n && keys@.subrange(0, n as int)[j] == kk;
                        assert(keys@.subrange(0, n + 1)[j] == kk);
                    }
                }
                assert forall|j: int|
                    0 <= j < n + 1 && u0.chunks@.contains_key(#[trigger] keys@[j]) && chunked@[keys@[j]].sources@.len() + 15
                        * CHUNK_VOLUME < MAX_LIGHTING_PROPAGATION implies chunk_settled(
                        u0.chunks@[keys@[j]].blocks@,
                        universe.chunks@[keys@[j]].blocks@,
                        leaked@,
                        key_pos(keys@[j]),
                        lt,
                    ) by {
                    if j == n {
                        assert(u0.chunks@.dom() == universe.chunks@.dom());
                    }
                }
            }
        }
        n = n + 1;
    }
    proof {
        assert(keys@.subrange(0, n as int) =~= keys@);
        assert forall|kk: u128|
            #[trigger] universe.chunks@.contains_key(kk) && !chunked@.contains_key(kk) implies universe.chunks@[kk]
                == u0.chunks@[kk] by {
            assert(!keys@.to_set().contains(kk));
        }
    }
}

} // verus!

verus! {

/// The sources of kind `lt` waiting for the chunk of key `k`: those already
/// grouped there, then the leaked ones that lie in it.
pub open spec fn pending(ls: LightSources, lt: LightType, k: u128) -> Seq<LightSource> {
    chunked_seq(ls.chunked_sources.at(lt)@, k) + group_for(ls.leaked_sources.at(lt)@, k)
}

/// Removes the processed chunks from a map of chunked sources.
fn remove_keys(m: &mut HashMap<u128, LightSourcesChunked>, keys: &Vec<u128>)
    requires
        chunked_wf(old(m)@),
    ensures
        chunked_wf(final(m)@),
        forall|k: u128|
            #[trigger] final(m)@.contains_key(k) <==> old(m)@.contains_key(k) && !keys@.contains(k),
        forall|k: u128| #[trigger] final(m)@.contains_key(k) ==> final(m)@[k] == old(m)@[k],
{
    let mut i: usize = 0;
    while i < keys.len()
        invariant
            i <= keys@.len(),
            chunked_wf(m@),
            forall|k: u128|
                #[trigger] m@.contains_key(k) <==> old(m)@.contains_key(k) && !keys@.subrange(
                    0,
                    i as int,
                ).contains(k),
            forall|k: u128| #[trigger] m@.contains_key(k) ==> m@[k] == old(m)@[k],
        decreases keys.len() - i,
    {
        let k = keys[i];
        m.remove(&k);
        proof {
            let s1 = keys@.subrange(0, i + 1);
            let s0 = keys@.subrange(0, i as int);
            assert(s1 =~= s0.push(k));
            assert forall|kk: u128|
                #[trigger] m@.contains_key(kk) <==> old(m)@.contains_key(kk) && !s1.contains(kk) by {
                if s1.contains(kk) && kk != k {
                    let j = choose|j: int| 0 <= j < s1.len() && s1[j] == kk;
                    assert(s0[j] == kk);
                }
                if s0.contains(kk) {
                    let j = choose|j: int| 0 <= j < s0.len() && s0[j] == kk;
                    assert(s1[j] == kk);
                }
                if kk == k {
                    assert(s1[i as int] == kk);
                }
            }
        }
        i = i + 1;
    }
    proof {
        assert(keys@.subrange(0, keys@.len() as int) =~= keys@);
    }
}

/// The world source `w` waits in `ls` among the sources of kind `lt` grouped
/// for its chunk.
pub open spec fn waits(ls: LightSources, lt: LightType, w: LightSource) -> bool {
    chunked_seq(ls.chunked_sources.at(lt)@, pos_key(chunk_origin(w.pos))).contains(
        LightSource { pos: inner_pos(w.pos), brightness: w.brightness },
    )
}

/// Light of kind `lt` has been passed on from `p`, in the chunk at
/// `chunk_pos` with blocks `s`, in direction `d`: a neighbour in the chunk that
/// lets light through is at most one level darker, and light reaching past the
/// border waits in `ls`, one level darker, for the chunk it enters.
pub open spec fn dir_settled_waiting(s: Seq<Block>, ls: LightSources, chunk_pos: IVec3, p: IVec3, d: int, lt: LightType) -> bool {
    let q = crate::lighting::step(p, d);
    let l = light_at(s, p, lt);
    if in_chunk(q) {
        !s[index_of(q)].is_opaque() ==> light_at(s, q, lt) + 2 > l
    } else {
        l > 0 ==> waits(ls, lt, crate::generation::to_world(LightSource { pos: q, brightness: (l - 1) as u8 }, chunk_pos))
    }
}

/// Light of kind `lt` has been passed on from `p` in all six directions.
pub open spec fn settled_waiting(s: Seq<Block>, ls: LightSources, chunk_pos: IVec3, p: IVec3, lt: LightType) -> bool {
    forall|d: int| 0 <= d < 6 ==> #[trigger] dir_settled_waiting(s, ls, chunk_pos, p, d, lt)
}

proof fn lemma_group_for_contains(s: Seq<LightSource>, w: LightSource)
    requires
        s.contains(w),
    ensures
        group_for(s, pos_key(chunk_origin(w.pos))).contains(
            LightSource { pos: inner_pos(w.pos), brightness: w.brightness },
        ),
    decreases s.len(),
{
    let k = pos_key(chunk_origin(w.pos));
    let e = LightSource { pos: inner_pos(w.pos), brightness: w.brightness };
    let g = group_for(s.drop_last(), k);
    if s.last() == w {
        let full = g + seq![e];
        assert(full[g.len() as int] == e);
    } else {
        let j = choose|j: int| 0 <= j < s.len() && s[j] == w;
        assert(s.drop_last()[j] == w);
        lemma_group_for_contains(s.drop_last(), w);
        let i = choose|i: int| 0 <= i < g.len() && g[i] == e;
        let tail = if pos_key(chunk_origin(s.last().pos)) == k {
            seq![LightSource { pos: inner_pos(s.last().pos), brightness: s.last().brightness }]
        } else {
            Seq::empty()
        };
        assert((g + tail)[i] == e);
    }
}

proof fn lemma_settled_waiting(s: Seq<Block>, dst: Seq<LightSource>, ls: LightSources, chunk_pos: IVec3, p: IVec3, lt: LightType)
    requires
        crate::generation::settled_world(s, dst, chunk_pos, p, lt),
        forall|w: LightSource| dst.contains(w) ==> #[trigger] waits(ls, lt, w),
    ensures
        settled_waiting(s, ls, chunk_pos, p, lt),
{
    assert forall|d: int| 0 <= d < 6 implies #[trigger] dir_settled_waiting(s, ls, chunk_pos, p, d, lt) by {
        assert(crate::generation::dir_settled_world(s, dst, chunk_pos, p, d, lt));
    }
}

proof fn lemma_regrouped_waits(before: Map<u128, LightSourcesChunked>, after: Map<u128, LightSourcesChunked>, leaked: Seq<LightSource>, ls: LightSources, lt: LightType)
    requires
        after == ls.chunked_sources.at(lt)@,
        forall|k: u128| #[trigger] chunked_seq(after, k) == chunked_seq(before, k) + group_for(leaked, k),
    ensures
        forall|w: LightSource| leaked.contains(w) ==> #[trigger] waits(ls, lt, w),
{
    assert forall|w: LightSource| leaked.contains(w) implies #[trigger] waits(ls, lt, w) by {
        let k = pos_key(chunk_origin(w.pos));
        let e = LightSource { pos: inner_pos(w.pos), brightness: w.brightness };
        lemma_group_for_contains(leaked, w);
        let g = group_for(leaked, k);
        let i = choose|i: int| 0 <= i < g.len() && g[i] == e;
        let c = chunked_seq(before, k);
        assert(chunked_seq(after, k) == c + g);
        assert((c + g)[c.len() + i] == e);
    }
}

proof fn lemma_apply_settled(
    u0: Universe,
    u1: Universe,
    u2: Universe,
    ls0: LightSources,
    ls_mid: LightSources,
    ls_f: LightSources,
    torch_leaks: Seq<LightSource>,
    sun_leaks: Seq<LightSource>,
)
    requires
        forall|kk: u128| #[trigger] u0.chunks@.contains_key(kk) ==> u0.chunks@[kk].blocks@.len() == CHUNK_VOLUME,
        universe_only_brighter(u0, u1, LightType::Torch),
        universe_only_brighter(u1, u2, LightType::Sun),
        forall|k: u128|
            #[trigger] u1.chunks@.contains_key(k) && !ls_mid.chunked_sources.torch@.contains_key(k) ==> u1.chunks@[k]
                == u0.chunks@[k],
        forall|k: u128|
            #[trigger] u2.chunks@.contains_key(k) && !ls_mid.chunked_sources.sun@.contains_key(k) ==> u2.chunks@[k]
                == u1.chunks@[k],
        forall|k: u128|
            #[trigger] ls_mid.chunked_sources.torch@.contains_key(k) && u0.chunks@.contains_key(k)
                && ls_mid.chunked_sources.torch@[k].sources@.len() + 15 * CHUNK_VOLUME < MAX_LIGHTING_PROPAGATION
                ==> chunk_settled(u0.chunks@[k].blocks@, u1.chunks@[k].blocks@, torch_leaks, key_pos(k), LightType::Torch),
        forall|k: u128|
            #[trigger] ls_mid.chunked_sources.sun@.contains_key(k) && u1.chunks@.contains_key(k)
                && ls_mid.chunked_sources.sun@[k].sources@.len() + 15 * CHUNK_VOLUME < MAX_LIGHTING_PROPAGATION
                ==> chunk_settled(u1.chunks@[k].blocks@, u2.chunks@[k].blocks@, sun_leaks, key_pos(k), LightType::Sun),
        forall|lt: LightType, k: u128|
            #[trigger] chunked_seq(ls_mid.chunked_sources.at(lt)@, k) == pending(ls0, lt, k),
        forall|w: LightSource| torch_leaks.contains(w) ==> #[trigger] waits(ls_f, LightType::Torch, w),
        forall|w: LightSource| sun_leaks.contains(w) ==> #[trigger] waits(ls_f, LightType::Sun, w),
    ensures
        forall|lt: LightType, k: u128, p: IVec3|
            u0.chunks@.contains_key(k) && pending(ls0, lt, k).len() + 15 * CHUNK_VOLUME < MAX_LIGHTING_PROPAGATION
                && in_chunk(p) && light_at(u2.chunks@[k].blocks@, p, lt) != light_at(u0.chunks@[k].blocks@, p, lt)
                ==> #[trigger] settled_waiting(u2.chunks@[k].blocks@, ls_f, key_pos(k), p, lt),
{
    assert forall|lt: LightType, k: u128, p: IVec3|
        u0.chunks@.contains_key(k) && pending(ls0, lt, k).len() + 15 * CHUNK_VOLUME < MAX_LIGHTING_PROPAGATION
            && in_chunk(p) && light_at(u2.chunks@[k].blocks@, p, lt) != light_at(u0.chunks@[k].blocks@, p, lt)
            implies #[trigger] settled_waiting(u2.chunks@[k].blocks@, ls_f, key_pos(k), p, lt) by {
        let b0 = u0.chunks@[k].blocks@;
        assert(u1.chunks@.contains_key(k));
        assert(u2.chunks@.contains_key(k));
        let b1 = u1.chunks@[k].blocks@;
        let b2 = u2.chunks@[k].blocks@;
        assert(only_brighter(b0, b1, LightType::Torch));
        assert(only_brighter(b1, b2, LightType::Sun));
        crate::chunk::lemma_index_of_pos(p);
        let ip = index_of(p);
        assert(b1[ip].id == b0[ip].id);
        assert(b2[ip].id == b1[ip].id);
        assert(chunked_seq(ls_mid.chunked_sources.at(lt)@, k) == pending(ls0, lt, k));
        if lt == LightType::Torch {
            assert(light_at(b2, p, lt) == light_at(b1, p, lt));
            let m = ls_mid.chunked_sources.torch@;
            if !m.contains_key(k) {
                assert(u1.chunks@[k] == u0.chunks@[k]);
            }
            assert(m.contains_key(k));
            assert(chunk_settled(b0, b1, torch_leaks, key_pos(k), LightType::Torch));
            assert(crate::generation::settled_world(b1, torch_leaks, key_pos(k), p, LightType::Torch));
            assert forall|d: int|
                0 <= d < 6 && in_chunk(#[trigger] crate::lighting::step(p, d)) implies light_at(
                b2,
                crate::lighting::step(p, d),
                LightType::Torch,
            ) >= light_at(b1, crate::lighting::step(p, d), LightType::Torch)
                && b2[index_of(crate::lighting::step(p, d))].properties == b1[index_of(
                crate::lighting::step(p, d),
            )].properties by {
                let r = crate::lighting::step(p, d);
                crate::chunk::lemma_index_of_pos(r);
                assert(b2[index_of(r)].id == b1[index_of(r)].id);
            }
            assert(torch_leaks.is_prefix_of(torch_leaks)) by {
                assert(torch_leaks.subrange(0, torch_leaks.len() as int) =~= torch_leaks);
            }
            crate::generation::lemma_settled_world_keep(b1, b2, torch_leaks, torch_leaks, key_pos(k), p, LightType::Torch);
            lemma_settled_waiting(b2, torch_leaks, ls_f, key_pos(k), p, LightType::Torch);
        } else {
            assert(light_at(b1, p, lt) == light_at(b0, p, lt));
            let m = ls_mid.chunked_sources.sun@;
            if !m.contains_key(k) {
                assert(u2.chunks@[k] == u1.chunks@[k]);
            }
            assert(m.contains_key(k));
            assert(chunk_settled(b1, b2, sun_leaks, key_pos(k), LightType::Sun));
            assert(crate::generation::settled_world(b2, sun_leaks, key_pos(k), p, LightType::Sun));
            lemma_settled_waiting(b2, sun_leaks, ls_f, key_pos(k), p, LightType::Sun);
        }
    }
}

/// Propagates all waiting light: the leaked sources are first grouped by
/// chunk; every loaded chunk with waiting sources has them applied and
/// propagated through it, and then waits for nothing; the light leaving
/// those chunks is grouped by chunk again, to be propagated later. Sources
/// waiting for chunks that are not loaded stay, ahead of any new ones.
/// Within each chunk that was lit (when its waiting sources are not so many
/// that the propagation is cut short), light has been passed on from every
/// block whose light changed, and what crosses the chunk's border waits for
/// the chunk it enters.
pub fn apply_lighting_sources(universe: &mut Universe, light_sources: &mut LightSources)
    requires
        old(universe).wf(),
        universe_keys_ok(*old(universe)),
        old(light_sources).wf(),
    ensures
        final(universe).wf(),
        universe_brighter(*old(universe), *final(universe)),
        final(light_sources).wf(),
        final(light_sources).leaked_sources.torch@ == Seq::<LightSource>::empty(),
        final(light_sources).leaked_sources.sun@ == Seq::<LightSource>::empty(),
        forall|lt: LightType, k: u128|
            old(universe).chunks@.contains_key(k) ==> #[trigger] sources_applied(
                old(universe).chunks@[k].blocks@,
                final(universe).chunks@[k].blocks@,
                pending(*old(light_sources), lt, k),
                lt,
            ),
        forall|lt: LightType, k: u128|
            !old(universe).chunks@.contains_key(k) ==> #[trigger] pending(*old(light_sources), lt, k).is_prefix_of(
                chunked_seq(final(light_sources).chunked_sources.at(lt)@, k),
            ),
        forall|lt: LightType, k: u128, p: IVec3|
            old(universe).chunks@.contains_key(k) && pending(*old(light_sources), lt, k).len() + 15 * CHUNK_VOLUME
                < MAX_LIGHTING_PROPAGATION && in_chunk(p) && light_at(final(universe).chunks@[k].blocks@, p, lt)
                != light_at(old(universe).chunks@[k].blocks@, p, lt) ==> #[trigger] settled_waiting(
                final(universe).chunks@[k].blocks@,
                *final(light_sources),
                key_pos(k),
                p,
                lt,
            ),
{
    let ghost u0 = *universe;
    let ghost ls0 = *light_sources;
    let mut torch: Vec<LightSource> = Vec::new();
    let mut sun: Vec<LightSource> = Vec::new();
    std::mem::swap(&mut light_sources.leaked_sources.torch, &mut torch);
    std::mem::swap(&mut light_sources.leaked_sources.sun, &mut sun);
    let leaked_outside = ByLight { torch, sun };
    group_leaked_light_into_chunks(universe, leaked_outside, light_sources);
    let ghost ls_mid = *light_sources;
    proof {
        assert forall|lt: LightType, k: u128|
            #[trigger] chunked_seq(ls_mid.chunked_sources.at(lt)@, k) == pending(ls0, lt, k) by {
            assert(leaked_outside.at(lt) == ls0.leaked_sources.at(lt));
        }
    }
    let mut leaked_inside = ByLight { torch: Vec::new(), sun: Vec::new() };
    let mut processed: Vec<u128> = Vec::new();
    process_light_type(
        universe,
        &light_sources.chunked_sources.torch,
        LightType::Torch,
        &mut leaked_inside.torch,
        &mut processed,
    );
    let ghost u1 = *universe;
    process_light_type(
        universe,
        &light_sources.chunked_sources.sun,
        LightType::Sun,
        &mut leaked_inside.sun,
        &mut processed,
    );
    proof {
        lemma_brighter_trans(u0, u1, *universe);
        assert forall|lt: LightType, k: u128|
            u0.chunks@.contains_key(k) implies #[trigger] sources_applied(
            u0.chunks@[k].blocks@,
            universe.chunks@[k].blocks@,
            pending(ls0, lt, k),
            lt,
        ) by {
            let p = pending(ls0, lt, k);
            let m = ls_mid.chunked_sources.at(lt)@;
            if m.contains_key(k) {
                assert(chunked_seq(m, k) == p);
                assert(chunk_sources_ok(p)) by {
                    assert(chunked_wf(m));
                    assert(m.contains_key(k));
                }
                if lt == LightType::Torch {
                    assert(u1.chunks@.contains_key(k));
                    lemma_applied_persists(
                        u0.chunks@[k].blocks@,
                        u1.chunks@[k].blocks@,
                        universe.chunks@[k].blocks@,
                        p,
                        lt,
                    );
                } else {
                    assert(u1.chunks@.contains_key(k));
                    lemma_applied_from_earlier(
                        u0.chunks@[k].blocks@,
                        u1.chunks@[k].blocks@,
                        universe.chunks@[k].blocks@,
                        p,
                        lt,
                    );
                }
            } else {
                assert(p.len() == 0);
            }
        }
    }
    let ghost u2 = *universe;
    remove_keys(&mut light_sources.chunked_sources.torch, &processed);
    remove_keys(&mut light_sources.chunked_sources.sun, &processed);
    let ghost ls_removed = *light_sources;
    group_leaked_light_into_chunks(universe, leaked_inside, light_sources);
    proof {
        lemma_regrouped_waits(
            ls_removed.chunked_sources.at(LightType::Torch)@,
            light_sources.chunked_sources.at(LightType::Torch)@,
            leaked_inside.at(LightType::Torch)@,
            *light_sources,
            LightType::Torch,
        );
        lemma_regrouped_waits(
            ls_removed.chunked_sources.at(LightType::Sun)@,
            light_sources.chunked_sources.at(LightType::Sun)@,
            leaked_inside.at(LightType::Sun)@,
            *light_sources,
            LightType::Sun,
        );
        lemma_apply_settled(u0, u1, *universe, ls0, ls_mid, *light_sources, leaked_inside.torch@, leaked_inside.sun@);
    }
    proof {
        assert forall|lt: LightType, k: u128|
            !u0.chunks@.contains_key(k) implies #[trigger] pending(ls0, lt, k).is_prefix_of(
            chunked_seq(light_sources.chunked_sources.at(lt)@, k),
        ) by {
            assert(!processed@.contains(k));
            assert(chunked_seq(ls_removed.chunked_sources.at(lt)@, k) == chunked_seq(
                ls_mid.chunked_sources.at(lt)@,
                k,
            ));
            let a = pending(ls0, lt, k);
            let b = chunked_seq(light_sources.chunked_sources.at(lt)@, k);
            assert(b == a + group_for(leaked_inside.at(lt)@, k));
            assert(a.len() <= b.len());
            assert(b.subrange(0, a.len() as int) =~= a);
        }
    }
}

} // verus!

verus! {

/// A change of one block requested by a player.
#[derive(Debug, Clone, Copy)]
pub enum UniverseChange {
    Add { pos: IVec3, block: Block },
    Remove { pos: IVec3 },
}

/// The changes waiting to be applied, in order.
#[derive(Debug, Clone)]
pub struct UniverseChanges {
    pub queue: Vec<UniverseChange>,
}

/// Bound on the blocks looked at below a removed block to extend its sun beam.
pub const MAX_SUN_BEAM_EXTENSION: i32 = 100000;

/// A coordinate far enough from the integer limits for every edit around it.
pub open spec fn coord_safe(v: int) -> bool {
    -0x8000_0000 + 0x20_0000 <= v <= 0x7fff_ffff - 0x20_0000
}

/// A position far enough from the integer limits for every edit around it.
pub open spec fn pos_safe(p: IVec3) -> bool {
    coord_safe(p.x as int) && coord_safe(p.y as int) && coord_safe(p.z as int)
}

/// Whether `p` is far enough from the integer limits for every edit around
/// it.
pub fn is_pos_safe(p: IVec3) -> (r: bool)
    ensures
        r == pos_safe(p),
{
    let lo: i32 = -0x8000_0000 + 0x20_0000;
    let hi: i32 = 0x7fff_ffff - 0x20_0000;
    lo <= p.x && p.x <= hi && lo <= p.y && p.y <= hi && lo <= p.z && p.z <= hi
}

/// A beam end far enough from the integer limits.
pub open spec fn beam_coord_safe(v: int) -> bool {
    -0x8000_0000 + 0x10_0000 <= v <= 0x7fff_ffff - 0x10_0000
}

/// Every stored beam has both ends in the safe range.
pub open spec fn beams_safe(sb: SunBeams) -> bool {
    forall|k: u64|
        #[trigger] sb.beams@.contains_key(k) ==> beam_coord_safe(sb.beams@[k].bottom as int)
            && beam_coord_safe(sb.beams@[k].top as int)
}

/// The block at `p` exists in `b` exactly when it exists in `a`, and is the
/// same block but possibly with its light of kind `lt` put out.
pub open spec fn darker_at(a: Universe, b: Universe, p: IVec3, lt: LightType) -> bool {
    &&& a.block_at(p).is_some() == b.block_at(p).is_some()
    &&& a.block_at(p).is_some() ==> darker_block(a.block_at(p).unwrap(), b.block_at(p).unwrap(), lt)
}

proof fn lemma_darker_everywhere(a: Universe, b: Universe, lt: LightType, p: IVec3)
    requires
        universe_darker(a, b, lt),
    ensures
        darker_at(a, b, p, lt),
{
    let k = pos_key(chunk_origin(p));
    if b.chunks@.contains_key(k) {
        crate::chunk::lemma_index_of_pos(inner_pos(p));
        crate::universe::lemma_inner_in_chunk(p);
        let i = index_of(inner_pos(p));
        assert(darker_block(a.chunks@[k].blocks@[i], b.chunks@[k].blocks@[i], lt));
    }
}

/// Leaked sources of both kinds only grew at their end, and the chunked
/// sources did not change.
pub open spec fn leaked_appended(a: LightSources, b: LightSources) -> bool {
    &&& b.chunked_sources.torch@ == a.chunked_sources.torch@
    &&& b.chunked_sources.sun@ == a.chunked_sources.sun@
    &&& a.leaked_sources.torch@.is_prefix_of(b.leaked_sources.torch@)
    &&& a.leaked_sources.sun@.is_prefix_of(b.leaked_sources.sun@)
}

/// Appends the sources of `v` to `dst`.
pub(crate) fn append_sources(dst: &mut Vec<LightSource>, v: &Vec<LightSource>)
    requires
        sources_bright_ok(old(dst)@),
        forall|i: int| 0 <= i < v@.len() ==> #[trigger] v@[i].brightness <= 15,
    ensures
        final(dst)@ == old(dst)@ + v@,
        sources_bright_ok(final(dst)@),
{
    let mut i: usize = 0;
    while i < v.len()
        invariant
            i <= v@.len(),
            dst@ == old(dst)@ + v@.subrange(0, i as int),
            forall|j: int| 0 <= j < v@.len() ==> #[trigger] v@[j].brightness <= 15,
            sources_bright_ok(old(dst)@),
        decreases v.len() - i,
    {
        dst.push(v[i]);
        i = i + 1;
        proof {
            assert(v@.subrange(0, i as int) =~= v@.subrange(0, i - 1).push(v@[i - 1]));
        }
    }
    proof {
        assert(v@.subrange(0, v@.len() as int) =~= v@);
        assert forall|j: int| #![trigger dst@[j]] 0 <= j < dst@.len() implies dst@[j].brightness <= 15 by {
            if j >= old(dst)@.len() {
                assert(dst@[j] == v@[j - old(dst)@.len()]);
            }
        }
    }
}

} // verus!

verus! {

/// The effect of one [`Universe::set_chunk_block`] on the blocks of the world.
pub open spec fn wrote_block(a: Universe, b: Universe, pos: IVec3, block: Block) -> bool {
    &&& a.chunks@.dom() == b.chunks@.dom()
    &&& b.wf()
    &&& b.block_at(pos) == if a.block_at(pos).is_some() {
        Some(block)
    } else {
        None
    }
    &&& forall|p: IVec3| p != pos ==> #[trigger] b.block_at(p) == a.block_at(p)
}

/// From `a` to `b`, light of kind `lt` was put out from `source` as
/// [`propagate_darkness`] does: only darker blocks, none lit at `source`, and
/// only blocks lit more dimly than `source` was changed.
pub open spec fn darkness_applied(a: Universe, b: Universe, source: IVec3, lt: LightType) -> bool {
    &&& universe_darker(a, b, lt)
    &&& b.block_at(source) matches Some(bb) ==> bb.light_of(lt) == 0
    &&& crate::lighting::put_out_only_dimmer(a, b, source, crate::lighting::light_or_zero(a, source, lt), lt)
}

/// The removal of the block at `pos`, from `u0` to `uf` through `u1`: when
/// the removed block gives light, its torch light is put out first (from `u0`
/// to `u1`; otherwise `u1` is `u0`), then the Air block is written. Each torch
/// light queued from `t0` to `t1` is one that darkness relights, or the light
/// of a neighbour in `uf`.
pub open spec fn removal_darkened(
    u0: Universe,
    u1: Universe,
    uf: Universe,
    pos: IVec3,
    bp: Blueprints,
    t0: Seq<LightSource>,
    t1: Seq<LightSource>,
) -> bool {
    &&& if u0.block_at(pos) matches Some(b) && bp.blocks@[b.id as int].light_level > 0 {
        darkness_applied(u0, u1, pos, LightType::Torch)
    } else {
        u1 == u0
    }
    &&& wrote_block(u1, uf, pos, crate::block::block_from(bp.blocks@[bp.first_named("Air"@)]))
    &&& t0.is_prefix_of(t1)
    &&& forall|i: int|
        #![trigger t1[i]]
        t0.len() <= i < t1.len() ==> crate::lighting::relit(
            u0,
            u1,
            bp,
            t1[i],
            crate::lighting::light_or_zero(u0, pos, LightType::Torch),
            LightType::Torch,
        ) || neighbour_light(uf, t1[i], pos, LightType::Torch)
}

/// The block of the column under a placed block at `pos` that the darkness
/// number `j` starts from, the cut beam having bottom `bottom`.
pub open spec fn shaded_at(pos: IVec3, bottom: int, j: int) -> IVec3 {
    IVec3 { x: pos.x, y: (bottom + j) as i32, z: pos.z }
}

/// How many blocks of the column the placement of a block at `pos` shades,
/// the beam of the column being `b`.
pub open spec fn shaded_count(b: SunBeam, pos: IVec3) -> int {
    if b.has(pos.y as int) {
        pos.y - b.bottom
    } else {
        0
    }
}

/// A block placed at `pos` in `u0` shades the beam `b` of its column: the
/// universes `us` are the one with the block written, then the one after the
/// sunlight of each shaded block, from the bottom of the beam up, has been put
/// out; each sunlight queued from `s0` to `s1` is one those darknesses
/// relight, the darkness numbered by `wit` for each.
pub open spec fn placement_shaded(
    us: Seq<Universe>,
    wit: Seq<int>,
    u0: Universe,
    uf: Universe,
    pos: IVec3,
    block: Block,
    b: SunBeam,
    bp: Blueprints,
    s0: Seq<LightSource>,
    s1: Seq<LightSource>,
) -> bool {
    let n = shaded_count(b, pos);
    &&& us.len() == n + 1
    &&& wrote_block(u0, us[0], pos, block)
    &&& us.last() == uf
    &&& forall|j: int| 0 <= j < n ==> #[trigger] darkness_applied(us[j], us[j + 1], shaded_at(pos, b.bottom as int, j), LightType::Sun)
    &&& s0.is_prefix_of(s1)
    &&& wit.len() == s1.len() - s0.len()
    &&& forall|i: int|
        0 <= i < wit.len() ==> 0 <= #[trigger] wit[i] < n && crate::lighting::relit(
            us[wit[i]],
            us[wit[i] + 1],
            bp,
            s1[s0.len() + i],
            crate::lighting::light_or_zero(us[wit[i]], shaded_at(pos, b.bottom as int, wit[i]), LightType::Sun),
            LightType::Sun,
        )
}

/// Writes `block` at `pos` (if its chunk is loaded).
fn write_block(universe: &mut Universe, pos: &IVec3, block: Block, bp: &Blueprints)
    requires
        old(universe).wf(),
        ids_known(*old(universe), *bp),
        (block.id as int) < bp.blocks@.len(),
    ensures
        wrote_block(*old(universe), *final(universe), *pos, block),
        ids_known(*final(universe), *bp),
{
    let ghost before = *universe;
    universe.set_chunk_block(pos, block);
    proof {
        let o = chunk_origin(*pos);
        let key = pos_key(o);
        if before.chunk_at(o).is_some() {
            assert forall|p: IVec3| p != *pos implies #[trigger] universe.block_at(p) == before.block_at(p) by {
                crate::universe::law_write_then_read(before, *universe, *pos, block, p);
            }
            crate::universe::law_write_then_read(before, *universe, *pos, block, *pos);
            assert forall|k: u128, i: int|
                #![trigger universe.chunks@[k].blocks@[i]]
                universe.chunks@.contains_key(k) && 0 <= i < CHUNK_VOLUME implies (
                universe.chunks@[k].blocks@[i].id as int) < bp.blocks@.len() by {
                if k != key {
                    assert(universe.chunks@[k] == before.chunks@[k]);
                } else {
                    if i != index_of(inner_pos(*pos)) {
                        assert(universe.chunks@[k].blocks@[i] == before.chunks@[k].blocks@[i]);
                    }
                }
            }
        } else {
            assert(universe.chunks@ == before.chunks@);
        }
    }
}

/// `b` differs from `a` in the block at `pos` and, elsewhere, at most by
/// light of kind `lt` put out.
pub open spec fn darker_except(a: Universe, b: Universe, pos: IVec3, lt: LightType) -> bool {
    forall|p: IVec3| p != pos ==> #[trigger] darker_at(a, b, p, lt)
}

/// The block at `p` is not loaded or lets light through.
pub open spec fn clear_at(u: Universe, p: IVec3) -> bool {
    match u.block_at(p) {
        Some(b) => !b.is_opaque(),
        None => true,
    }
}

/// The block at `p` is loaded and opaque.
pub open spec fn opaque_at(u: Universe, p: IVec3) -> bool {
    match u.block_at(p) {
        Some(b) => b.is_opaque(),
        None => false,
    }
}

/// `s` is the light of a neighbour of `pos` that lets light through, with
/// its light of kind `lt` in `u` as brightness, brighter than one.
pub open spec fn neighbour_light(u: Universe, s: LightSource, pos: IVec3, lt: LightType) -> bool {
    &&& exists|d: int| 0 <= d < 6 && s.pos == #[trigger] crate::lighting::step(pos, d)
    &&& u.block_at(s.pos) matches Some(b) && !b.is_opaque() && s.brightness == b.light_of(lt) && s.brightness > 1
}

/// A torch light queued by the removal of the block at `pos`: one to
/// propagate again after putting out the removed block's light in `u0`, or
/// the light of a neighbour in `uf`.
pub open spec fn torch_requeued(u0: Universe, uf: Universe, bp: Blueprints, s: LightSource, pos: IVec3) -> bool {
    ||| crate::lighting::relight_ok(u0, bp, s, crate::lighting::light_or_zero(u0, pos, LightType::Torch), LightType::Torch)
    ||| neighbour_light(uf, s, pos, LightType::Torch)
}

/// A sunlight queued by the removal of the block at `pos`: the light of a
/// neighbour in `uf`, or full sunlight at a block of the column at or below
/// `pos` that lets light through.
pub open spec fn sun_requeued(uf: Universe, s: LightSource, pos: IVec3) -> bool {
    ||| neighbour_light(uf, s, pos, LightType::Sun)
    ||| s.pos.x == pos.x && s.pos.z == pos.z && s.pos.y <= pos.y && s.brightness == 15 && clear_at(uf, s.pos)
}

/// The sun beam of a column after a block was removed at `pos` in it: it only
/// changed when the block was just below it, and then it reaches down,
/// through blocks that let light through or are not loaded, to just above
/// the first loaded opaque block within `MAX_SUN_BEAM_EXTENSION` blocks;
/// with no such block it stays.
pub open spec fn beam_after_removal(u: Universe, old_beam: SunBeam, new_beam: SunBeam, pos: IVec3) -> bool {
    &&& new_beam.top == old_beam.top
    &&& old_beam.bottom - 1 != pos.y ==> new_beam == old_beam
    &&& old_beam.bottom - 1 == pos.y ==> {
        ||| {
            &&& pos.y - MAX_SUN_BEAM_EXTENSION < new_beam.bottom <= pos.y + 1
            &&& opaque_at(u, IVec3 { x: pos.x, y: (new_beam.bottom - 1) as i32, z: pos.z })
            &&& forall|y: int|
                new_beam.bottom <= y <= pos.y ==> #[trigger] clear_at(u, IVec3 { x: pos.x, y: y as i32, z: pos.z })
        }
        ||| {
            &&& new_beam == old_beam
            &&& forall|y: int|
                pos.y - MAX_SUN_BEAM_EXTENSION < y <= pos.y ==> #[trigger] clear_at(
                    u,
                    IVec3 { x: pos.x, y: y as i32, z: pos.z },
                )
        }
    }
}

/// The neighbour of `pos` in direction `d`, if loaded, lets light through
/// and holds light of kind `lt` above one, is queued in `queued` with that
/// light.
pub open spec fn neighbour_queued(u: Universe, queued: Seq<LightSource>, pos: IVec3, d: int, lt: LightType) -> bool {
    let q = crate::lighting::step(pos, d);
    match u.block_at(q) {
        Some(b) => !b.is_opaque() && b.light_of(lt) > 1 ==> queued.contains(
            LightSource { pos: q, brightness: b.light_of(lt) },
        ),
        None => true,
    }
}

/// A light that was queued stays queued when more lights are appended.
proof fn lemma_queued_kept(u: Universe, before: Seq<LightSource>, after: Seq<LightSource>, pos: IVec3, e: int, lt: LightType)
    requires
        neighbour_queued(u, before, pos, e, lt),
        before.len() <= after.len(),
        forall|j: int| 0 <= j < before.len() ==> after[j] == before[j],
    ensures
        neighbour_queued(u, after, pos, e, lt),
{
    let q = crate::lighting::step(pos, e);
    if u.block_at(q) is Some {
        let b = u.block_at(q).unwrap();
        let src = LightSource { pos: q, brightness: b.light_of(lt) };
        if !b.is_opaque() && b.light_of(lt) > 1 {
            let j = choose|j: int| 0 <= j < before.len() && before[j] == src;
            assert(after[j] == src);
        }
    }
}

/// Removes the block at `pos`: puts out its torch light if it shone, replaces
/// it with air, queues the light of the transparent neighbours that may now
/// flow into it, and extends the sun beam down through it if it was the block
/// just under the beam, queueing sunlight for the blocks the beam now lights.
#[verifier::rlimit(60)]
#[verifier::spinoff_prover]
pub fn remove_block(
    universe: &mut Universe,
    pos: IVec3,
    light_sources: &mut LightSources,
    sun_beams: &mut SunBeams,
    bp: &Blueprints,
)
    requires
        old(universe).wf(),
        bp.wf(),
        bp.has_named("Air"@),
        ids_known(*old(universe), *bp),
        old(light_sources).wf(),
        pos_safe(pos),
        beams_safe(*old(sun_beams)),
    ensures
        final(universe).wf(),
        ids_known(*final(universe), *bp),
        final(universe).chunks@.dom() == old(universe).chunks@.dom(),
        old(universe).block_at(pos).is_some() ==> final(universe).block_at(pos) == Some(
            Block {
                id: bp.blocks@[bp.first_named("Air"@)].id,
                light: 0,
                properties: final(universe).block_at(pos).unwrap().properties,
            },
        ) && forall|f: u8|
            final(universe).block_at(pos).unwrap().properties@.contains(f)
                <==> bp.blocks@[bp.first_named("Air"@)].flags@.contains(f),
        old(universe).block_at(pos).is_none() ==> final(universe).block_at(pos).is_none(),
        darker_except(*old(universe), *final(universe), pos, LightType::Torch),
        final(light_sources).wf(),
        leaked_appended(*old(light_sources), *final(light_sources)),
        beams_safe(*final(sun_beams)),
        forall|c: crate::ivec::IVec2| c != crate::ivec::column_of(pos) ==> #[trigger] final(sun_beams).beam_at(c)
            == old(sun_beams).beam_at(c),
        beam_after_removal(
            *final(universe),
            old(sun_beams).beam_at(crate::ivec::column_of(pos)),
            final(sun_beams).beam_at(crate::ivec::column_of(pos)),
            pos,
        ),
        forall|j: int|
            old(light_sources).leaked_sources.torch@.len() <= j < final(light_sources).leaked_sources.torch@.len()
                ==> #[trigger] torch_requeued(
                *old(universe),
                *final(universe),
                *bp,
                final(light_sources).leaked_sources.torch@[j],
                pos,
            ),
        forall|j: int|
            old(light_sources).leaked_sources.sun@.len() <= j < final(light_sources).leaked_sources.sun@.len()
                ==> #[trigger] sun_requeued(*final(universe), final(light_sources).leaked_sources.sun@[j], pos),
        old(universe).block_at(pos).is_some() ==> final(universe).block_at(pos) == Some(
            crate::block::block_from(bp.blocks@[bp.first_named("Air"@)]),
        ),
        forall|d: int|
            0 <= d < 6 ==> #[trigger] neighbour_queued(
                *final(universe),
                final(light_sources).leaked_sources.torch@,
                pos,
                d,
                LightType::Torch,
            ),
        forall|d: int|
            0 <= d < 6 ==> #[trigger] neighbour_queued(
                *final(universe),
                final(light_sources).leaked_sources.sun@,
                pos,
                d,
                LightType::Sun,
            ),
        exists|u1: Universe|
            #[trigger] removal_darkened(
                *old(universe),
                u1,
                *final(universe),
                pos,
                *bp,
                old(light_sources).leaked_sources.torch@,
                final(light_sources).leaked_sources.torch@,
            ),
{
    let ghost u0 = *universe;
    let ghost ls0 = *light_sources;
    match universe.read_chunk(&pos) {
        Some(block) => {
            proof {
                crate::chunk::lemma_index_of_pos(inner_pos(pos));
                crate::universe::lemma_inner_in_chunk(pos);
                assert(universe.chunks@[pos_key(chunk_origin(pos))].blocks@[index_of(inner_pos(pos))] == block);
            }
            if bp.get(block.id).is_light_source() {
                let mut new_sources = propagate_darkness(universe, bp, pos, LightType::Torch);
                let ghost t_before = light_sources.leaked_sources.torch@;
                append_sources(&mut light_sources.leaked_sources.torch, &new_sources);
                proof {
                    assert forall|j: int|
                        ls0.leaked_sources.torch@.len() <= j < light_sources.leaked_sources.torch@.len()
                            implies #[trigger] crate::lighting::relight_ok(
                        u0,
                        *bp,
                        light_sources.leaked_sources.torch@[j],
                        crate::lighting::light_or_zero(u0, pos, LightType::Torch),
                        LightType::Torch,
                    ) by {
                        assert(light_sources.leaked_sources.torch@[j] == new_sources@[j - t_before.len()]);
                    }
                    assert forall|j: int|
                        #![trigger light_sources.leaked_sources.torch@[j]]
                        ls0.leaked_sources.torch@.len() <= j < light_sources.leaked_sources.torch@.len()
                            implies crate::lighting::relit(
                        u0,
                        *universe,
                        *bp,
                        light_sources.leaked_sources.torch@[j],
                        crate::lighting::light_or_zero(u0, pos, LightType::Torch),
                        LightType::Torch,
                    ) by {
                        assert(light_sources.leaked_sources.torch@[j] == new_sources@[j - t_before.len()]);
                    }
                }
            }
        },
        None => {},
    }
    let ghost u1 = *universe;
    proof {
        assert(if u0.block_at(pos) matches Some(b) && bp.blocks@[b.id as int].light_level > 0 {
            darkness_applied(u0, u1, pos, LightType::Torch)
        } else {
            u1 == u0
        });
    }
    proof {
        if u1 != u0 {
        }
        assert(universe_darker(u0, u1, LightType::Torch)) by {
            if !(universe_darker(u0, u1, LightType::Torch)) {
                assert(u1 == u0);
                crate::lighting::lemma_darker_refl_pub(u0, LightType::Torch);
            }
        }
    }
    let air = bp.get_named("Air");
    proof {
        assert(bp.blocks@[bp.first_named("Air"@)].wf());
    }
    let air_block = Block::new(air);
    write_block(universe, &pos, air_block, bp);
    let ghost u2 = *universe;
    proof {
        assert forall|p: IVec3| p != pos implies #[trigger] darker_at(u0, u2, p, LightType::Torch) by {
            lemma_darker_everywhere(u0, u1, LightType::Torch, p);
        }
        lemma_darker_everywhere(u0, u1, LightType::Torch, pos);
    }
    let mut d: usize = 0;
    while d < 6
        invariant
            d <= 6,
            universe.wf(),
            *universe == u2,
            light_sources.wf(),
            leaked_appended(ls0, *light_sources),
            pos_safe(pos),
            forall|j: int|
                ls0.leaked_sources.torch@.len() <= j < light_sources.leaked_sources.torch@.len()
                    ==> #[trigger] torch_requeued(u0, u2, *bp, light_sources.leaked_sources.torch@[j], pos),
            forall|j: int|
                #![trigger light_sources.leaked_sources.torch@[j]]
                ls0.leaked_sources.torch@.len() <= j < light_sources.leaked_sources.torch@.len()
                    ==> crate::lighting::relit(
                    u0,
                    u1,
                    *bp,
                    light_sources.leaked_sources.torch@[j],
                    crate::lighting::light_or_zero(u0, pos, LightType::Torch),
                    LightType::Torch,
                ) || neighbour_light(u2, light_sources.leaked_sources.torch@[j], pos, LightType::Torch),
            forall|j: int|
                ls0.leaked_sources.sun@.len() <= j < light_sources.leaked_sources.sun@.len()
                    ==> #[trigger] sun_requeued(u2, light_sources.leaked_sources.sun@[j], pos),
            forall|e: int|
                0 <= e < d ==> #[trigger] neighbour_queued(u2, light_sources.leaked_sources.torch@, pos, e, LightType::Torch),
            forall|e: int|
                0 <= e < d ==> #[trigger] neighbour_queued(u2, light_sources.leaked_sources.sun@, pos, e, LightType::Sun),
        decreases 6 - d,
    {
        let ghost t_before = light_sources.leaked_sources.torch@;
        let ghost s_before0 = light_sources.leaked_sources.sun@;
        let sample = pos.add(&crate::lighting::dir(d));
        proof {
            assert(sample == crate::lighting::step(pos, d as int));
        }
        match universe.read_chunk(&sample) {
            Some(voxel) => {
                if !voxel.opaque() {
                    let t = voxel.get_light(LightType::Torch);
                    if t > 1 {
                        light_sources.leaked_sources.torch.push(LightSource { pos: sample, brightness: t });
                    }
                    let s = voxel.get_light(LightType::Sun);
                    if s > 1 {
                        light_sources.leaked_sources.sun.push(LightSource { pos: sample, brightness: s });
                    }
                }
            },
            None => {},
        }
        proof {
            assert forall|j: int| #![trigger light_sources.leaked_sources.torch@[j]]
                0 <= j < light_sources.leaked_sources.torch@.len() implies light_sources.leaked_sources.torch@[j].brightness <= 15 by {}
            assert forall|e: int| 0 <= e < d + 1 implies #[trigger] neighbour_queued(
                u2,
                light_sources.leaked_sources.torch@,
                pos,
                e,
                LightType::Torch,
            ) by {
                if e < d {
                    lemma_queued_kept(u2, t_before, light_sources.leaked_sources.torch@, pos, e, LightType::Torch);
                } else {
                    let q = crate::lighting::step(pos, e);
                    assert(q == sample);
                    if u2.block_at(q) is Some {
                        let b = u2.block_at(q).unwrap();
                        if !b.is_opaque() && b.light_of(LightType::Torch) > 1 {
                            assert(light_sources.leaked_sources.torch@[light_sources.leaked_sources.torch@.len() - 1] == LightSource { pos: q, brightness: b.light_of(LightType::Torch) });
                        }
                    }
                }
            }
            assert forall|e: int| 0 <= e < d + 1 implies #[trigger] neighbour_queued(
                u2,
                light_sources.leaked_sources.sun@,
                pos,
                e,
                LightType::Sun,
            ) by {
                if e < d {
                    lemma_queued_kept(u2, s_before0, light_sources.leaked_sources.sun@, pos, e, LightType::Sun);
                } else {
                    let q = crate::lighting::step(pos, e);
                    assert(q == sample);
                    if u2.block_at(q) is Some {
                        let b = u2.block_at(q).unwrap();
                        if !b.is_opaque() && b.light_of(LightType::Sun) > 1 {
                            assert(light_sources.leaked_sources.sun@[light_sources.leaked_sources.sun@.len() - 1] == LightSource { pos: q, brightness: b.light_of(LightType::Sun) });
                        }
                    }
                }
            }
        }
        d = d + 1;
    }
    let xz = pos.xz();
    let mut beam = sun_beams.get_at(&xz);
    let ghost b0 = beam;
    proof {
        assert(beam_coord_safe(beam.bottom as int) && beam_coord_safe(beam.top as int)) by {
            if sun_beams.beams@.contains_key(crate::ivec::plane_key(xz)) {
            }
        }
    }
    if beam.bottom - 1 == pos.y {
        let mut leaked_sun: Vec<LightSource> = Vec::new();
        let mut iter: i32 = 0;
        while iter < MAX_SUN_BEAM_EXTENSION
            invariant_except_break
                0 <= iter <= MAX_SUN_BEAM_EXTENSION,
                beam == b0,
                forall|y: int|
                    pos.y - iter < y <= pos.y ==> #[trigger] clear_at(*universe, IVec3 { x: pos.x, y: y as i32, z: pos.z }),
            invariant
                universe.wf(),
                *universe == u2,
                pos_safe(pos),
                b0.bottom - 1 == pos.y,
                forall|j: int| 0 <= j < leaked_sun@.len() ==> #[trigger] leaked_sun@[j].brightness <= 15,
                forall|j: int| 0 <= j < leaked_sun@.len() ==> #[trigger] sun_requeued(u2, leaked_sun@[j], pos),
            ensures
                ({
                    &&& beam.top == b0.top
                    &&& pos.y - MAX_SUN_BEAM_EXTENSION < beam.bottom <= pos.y + 1
                    &&& opaque_at(*universe, IVec3 { x: pos.x, y: (beam.bottom - 1) as i32, z: pos.z })
                    &&& forall|y: int|
                        beam.bottom <= y <= pos.y ==> #[trigger] clear_at(*universe, IVec3 { x: pos.x, y: y as i32, z: pos.z })
                }) || (beam == b0 && forall|y: int|
                    pos.y - MAX_SUN_BEAM_EXTENSION < y <= pos.y ==> #[trigger] clear_at(
                        *universe,
                        IVec3 { x: pos.x, y: y as i32, z: pos.z },
                    )),
            decreases MAX_SUN_BEAM_EXTENSION - iter,
        {
            let h = pos.y - iter;
            let sample = IVec3::new(pos.x, h, pos.z);
            match universe.read_chunk(&sample) {
                Some(voxel) => {
                    if voxel.opaque() {
                        beam.bottom = h + 1;
                        break;
                    } else {
                        leaked_sun.push(LightSource { pos: sample, brightness: crate::block::MAX_LIGHT });
                    }
                },
                None => {},
            }
            iter = iter + 1;
        }
        let ghost s_before = light_sources.leaked_sources.sun@;
        append_sources(&mut light_sources.leaked_sources.sun, &leaked_sun);
        proof {
            assert forall|j: int|
                ls0.leaked_sources.sun@.len() <= j < light_sources.leaked_sources.sun@.len() implies #[trigger] sun_requeued(
                u2,
                light_sources.leaked_sources.sun@[j],
                pos,
            ) by {
                if j >= s_before.len() {
                    assert(light_sources.leaked_sources.sun@[j] == leaked_sun@[j - s_before.len()]);
                } else {
                    assert(light_sources.leaked_sources.sun@[j] == s_before[j]);
                }
            }
            assert forall|e: int| 0 <= e < 6 implies #[trigger] neighbour_queued(
                u2,
                light_sources.leaked_sources.sun@,
                pos,
                e,
                LightType::Sun,
            ) by {
                assert(neighbour_queued(u2, s_before, pos, e, LightType::Sun));
                lemma_queued_kept(u2, s_before, light_sources.leaked_sources.sun@, pos, e, LightType::Sun);
            }
        }
    }
    sun_beams.beams.insert(xz.key(), beam);
    proof {
        assert(ls0.leaked_sources.torch@.is_prefix_of(light_sources.leaked_sources.torch@));
        assert(removal_darkened(
            u0,
            u1,
            *universe,
            pos,
            *bp,
            ls0.leaked_sources.torch@,
            light_sources.leaked_sources.torch@,
        ));
        assert forall|c: crate::ivec::IVec2| c != crate::ivec::column_of(pos) implies #[trigger] sun_beams.beam_at(c)
            == old(sun_beams).beam_at(c) by {
            if crate::ivec::plane_key(c) == crate::ivec::plane_key(xz) {
                crate::ivec::lemma_plane_key_injective(c, xz);
            }
        }
        assert forall|k: u64| #[trigger] sun_beams.beams@.contains_key(k) implies beam_coord_safe(
            sun_beams.beams@[k].bottom as int,
        ) && beam_coord_safe(sun_beams.beams@[k].top as int) by {
            if k != crate::ivec::plane_key(xz) {
                assert(old(sun_beams).beams@.contains_key(k));
            }
        }
    }
}

} // verus!

verus! {

/// Places `block` at `pos`: queues its torch light, and cuts the sun beam of
/// its column at it, putting out the sunlight of the part of the beam now in
/// its shadow (from the bottom of the beam up to just below `pos`).
pub fn add_block(
    universe: &mut Universe,
    pos: IVec3,
    block: Block,
    light_sources: &mut LightSources,
    sun_beams: &mut SunBeams,
    bp: &Blueprints,
)
    requires
        old(universe).wf(),
        bp.wf(),
        ids_known(*old(universe), *bp),
        (block.id as int) < bp.blocks@.len(),
        old(light_sources).wf(),
        pos_safe(pos),
        beams_safe(*old(sun_beams)),
    ensures
        final(universe).wf(),
        ids_known(*final(universe), *bp),
        final(universe).chunks@.dom() == old(universe).chunks@.dom(),
        old(universe).block_at(pos).is_some() ==> final(universe).block_at(pos).is_some()
            && darker_block(block, final(universe).block_at(pos).unwrap(), LightType::Sun),
        old(universe).block_at(pos).is_none() ==> final(universe).block_at(pos).is_none(),
        darker_except(*old(universe), *final(universe), pos, LightType::Sun),
        final(light_sources).wf(),
        leaked_appended(*old(light_sources), *final(light_sources)),
        final(light_sources).leaked_sources.torch@ == old(light_sources).leaked_sources.torch@.push(
            LightSource { pos, brightness: bp.blocks@[block.id as int].light_level },
        ),
        beams_safe(*final(sun_beams)),
        forall|c: crate::ivec::IVec2| c != crate::ivec::column_of(pos) ==> #[trigger] final(sun_beams).beam_at(c)
            == old(sun_beams).beam_at(c),
        ({
            let b = old(sun_beams).beam_at(crate::ivec::column_of(pos));
            let n = final(sun_beams).beam_at(crate::ivec::column_of(pos));
            &&& b.has(pos.y as int) ==> n.top == b.top && n.bottom == (if pos.y + 1 <= b.top {
                pos.y + 1
            } else {
                b.top as int
            })
            &&& !b.has(pos.y as int) ==> n == b
        }),
        exists|us: Seq<Universe>, wit: Seq<int>|
            #[trigger] placement_shaded(
                us,
                wit,
                *old(universe),
                *final(universe),
                pos,
                block,
                old(sun_beams).beam_at(crate::ivec::column_of(pos)),
                *bp,
                old(light_sources).leaked_sources.sun@,
                final(light_sources).leaked_sources.sun@,
            ),
{
    let ghost u0 = *universe;
    let ghost ls0 = *light_sources;
    write_block(universe, &pos, block, bp);
    let ghost u1 = *universe;
    let block_bp = bp.get(block.id);
    proof {
        assert(bp.blocks@[block.id as int].wf());
    }
    light_sources.leaked_sources.torch.push(LightSource { pos, brightness: block_bp.light_level });
    let ghost ls1 = *light_sources;
    proof {
        assert(ls0.leaked_sources.torch@.is_prefix_of(ls1.leaked_sources.torch@)) by {
            assert(ls1.leaked_sources.torch@.subrange(0, ls0.leaked_sources.torch@.len() as int)
                =~= ls0.leaked_sources.torch@);
        }
        assert(ls0.leaked_sources.sun@.is_prefix_of(ls1.leaked_sources.sun@)) by {
            assert(ls1.leaked_sources.sun@.subrange(0, ls0.leaked_sources.sun@.len() as int)
                =~= ls0.leaked_sources.sun@);
        }
        crate::lighting::lemma_darker_refl_pub(u1, LightType::Sun);
    }
    let xz = pos.xz();
    let ghost b0 = sun_beams.beam_at(xz);
    proof {
        assert(beam_coord_safe(b0.bottom as int) && beam_coord_safe(b0.top as int)) by {
            if sun_beams.beams@.contains_key(crate::ivec::plane_key(xz)) {
            }
        }
    }
    let ghost mut us: Seq<Universe> = seq![u1];
    let ghost mut wit: Seq<int> = Seq::empty();
    match sun_beams.cut_beam(&xz, pos.y) {
        Some((lower, _)) => {
            let mut y = lower.bottom;
            while y < lower.top
                invariant
                    lower.bottom <= y <= lower.top,
                    lower.top == pos.y,
                    lower.bottom == b0.bottom,
                    us.len() == y - lower.bottom + 1,
                    us[0] == u1,
                    us.last() == *universe,
                    forall|j: int|
                        0 <= j < y - lower.bottom ==> #[trigger] darkness_applied(
                            us[j],
                            us[j + 1],
                            shaded_at(pos, b0.bottom as int, j),
                            LightType::Sun,
                        ),
                    wit.len() == light_sources.leaked_sources.sun@.len() - ls1.leaked_sources.sun@.len(),
                    forall|i: int|
                        0 <= i < wit.len() ==> 0 <= #[trigger] wit[i] < y - lower.bottom && crate::lighting::relit(
                            us[wit[i]],
                            us[wit[i] + 1],
                            *bp,
                            light_sources.leaked_sources.sun@[ls1.leaked_sources.sun@.len() + i],
                            crate::lighting::light_or_zero(us[wit[i]], shaded_at(pos, b0.bottom as int, wit[i]), LightType::Sun),
                            LightType::Sun,
                        ),
                    beam_coord_safe(lower.bottom as int),
                    pos_safe(pos),
                    universe.wf(),
                    bp.wf(),
                    ids_known(*universe, *bp),
                    universe_darker(u1, *universe, LightType::Sun),
                    light_sources.wf(),
                    leaked_appended(ls1, *light_sources),
                    light_sources.leaked_sources.torch@ == ls1.leaked_sources.torch@,
                decreases lower.top - y,
            {
                let src = IVec3::new(pos.x, y, pos.z);
                let ghost before = *universe;
                let ghost ls_before = *light_sources;
                let new_sources = propagate_darkness(universe, bp, src, LightType::Sun);
                append_sources(&mut light_sources.leaked_sources.sun, &new_sources);
                proof {
                    let m = y - lower.bottom;
                    let us0 = us;
                    let us1 = us0.push(*universe);
                    assert(src == shaded_at(pos, b0.bottom as int, m));
                    assert(us1[m] == before);
                    assert(us1[m + 1] == *universe);
                    assert forall|j: int|
                        0 <= j < m + 1 implies #[trigger] darkness_applied(
                        us1[j],
                        us1[j + 1],
                        shaded_at(pos, b0.bottom as int, j),
                        LightType::Sun,
                    ) by {
                        if j < m {
                            assert(us1[j] == us0[j] && us1[j + 1] == us0[j + 1]);
                        }
                    }
                    let sun = light_sources.leaked_sources.sun@;
                    let base = ls1.leaked_sources.sun@.len();
                    let wit1 = wit + Seq::new(new_sources@.len(), |q: int| m);
                    assert forall|i: int|
                        0 <= i < wit1.len() implies 0 <= #[trigger] wit1[i] < m + 1 && crate::lighting::relit(
                        us1[wit1[i]],
                        us1[wit1[i] + 1],
                        *bp,
                        sun[base + i],
                        crate::lighting::light_or_zero(us1[wit1[i]], shaded_at(pos, b0.bottom as int, wit1[i]), LightType::Sun),
                        LightType::Sun,
                    ) by {
                        if i < wit.len() {
                            assert(wit1[i] == wit[i]);
                            assert(sun[base + i] == ls_before.leaked_sources.sun@[base + i]);
                            assert(us1[wit[i]] == us0[wit[i]] && us1[wit[i] + 1] == us0[wit[i] + 1]);
                        } else {
                            let q = i - wit.len();
                            assert(wit1[i] == m);
                            assert(sun[base + i] == new_sources@[q]);
                        }
                    }
                    us = us1;
                    wit = wit1;
                    crate::lighting::lemma_darker_trans_pub(u1, before, *universe, LightType::Sun);
                    assert(ls_before.leaked_sources.sun@.is_prefix_of(light_sources.leaked_sources.sun@)) by {
                        assert(light_sources.leaked_sources.sun@.subrange(
                            0,
                            ls_before.leaked_sources.sun@.len() as int,
                        ) =~= ls_before.leaked_sources.sun@);
                    }
                    assert(ls1.leaked_sources.sun@.is_prefix_of(light_sources.leaked_sources.sun@)) by {
                        assert(ls1.leaked_sources.sun@.is_prefix_of(ls_before.leaked_sources.sun@));
                        assert(light_sources.leaked_sources.sun@.subrange(
                            0,
                            ls1.leaked_sources.sun@.len() as int,
                        ) =~= ls1.leaked_sources.sun@) by {
                            assert(ls_before.leaked_sources.sun@.subrange(
                                0,
                                ls1.leaked_sources.sun@.len() as int,
                            ) =~= ls1.leaked_sources.sun@);
                        }
                    }
                }
                y = y + 1;
            }
        },
        None => {},
    }
    proof {
        assert(ls0.leaked_sources.torch@.is_prefix_of(light_sources.leaked_sources.torch@)) by {
            assert(light_sources.leaked_sources.torch@.subrange(
                0,
                ls0.leaked_sources.torch@.len() as int,
            ) =~= ls0.leaked_sources.torch@);
        }
        assert(ls0.leaked_sources.sun@.is_prefix_of(light_sources.leaked_sources.sun@)) by {
            assert(light_sources.leaked_sources.sun@.subrange(
                0,
                ls0.leaked_sources.sun@.len() as int,
            ) =~= ls0.leaked_sources.sun@) by {
                assert(light_sources.leaked_sources.sun@.subrange(
                    0,
                    ls1.leaked_sources.sun@.len() as int,
                ) =~= ls1.leaked_sources.sun@);
            }
        }
        assert forall|p: IVec3| p != pos implies #[trigger] darker_at(u0, *universe, p, LightType::Sun) by {
            lemma_darker_everywhere(u1, *universe, LightType::Sun, p);
        }
        lemma_darker_everywhere(u1, *universe, LightType::Sun, pos);
        assert(us.len() == shaded_count(b0, pos) + 1);
        assert(wrote_block(u0, us[0], pos, block));
        assert(us.last() == *universe);
        assert(ls0.leaked_sources.sun@.is_prefix_of(light_sources.leaked_sources.sun@));
        assert(ls1.leaked_sources.sun@ == ls0.leaked_sources.sun@);
        assert(b0 == old(sun_beams).beam_at(crate::ivec::column_of(pos)));
        assert(b0.has(pos.y as int) ==> us.len() == pos.y - b0.bottom + 1);
        assert(!b0.has(pos.y as int) ==> us.len() == 1);
        assert(forall|j: int| 0 <= j < shaded_count(b0, pos) ==> #[trigger] darkness_applied(us[j], us[j + 1], shaded_at(pos, b0.bottom as int, j), LightType::Sun));
        assert(wit.len() == light_sources.leaked_sources.sun@.len() - ls0.leaked_sources.sun@.len());
        assert(placement_shaded(
            us,
            wit,
            u0,
            *universe,
            pos,
            block,
            b0,
            *bp,
            ls0.leaked_sources.sun@,
            light_sources.leaked_sources.sun@,
        ));
        assert forall|k: u64| #[trigger] sun_beams.beams@.contains_key(k) implies beam_coord_safe(
            sun_beams.beams@[k].bottom as int,
        ) && beam_coord_safe(sun_beams.beams@[k].top as int) by {
            if k != crate::ivec::plane_key(xz) {
                assert(old(sun_beams).beams@.contains_key(k));
            } else {
                let n = sun_beams.beam_at(xz);
                assert(sun_beams.beams@[k] == n);
                if b0.has(pos.y as int) {
                    assert(n.top == b0.top);
                    assert(beam_coord_safe(n.bottom as int));
                } else {
                    assert(n == b0);
                }
            }
        }
    }
}

} // verus!

verus! {

impl UniverseChange {
    /// The position the change is about.
    pub open spec fn pos_spec(self) -> IVec3 {
        match self {
            UniverseChange::Add { pos, .. } => pos,
            UniverseChange::Remove { pos } => pos,
        }
    }

    /// The change can be applied: its position is in the safe range and an
    /// added block has a blueprint.
    pub open spec fn applicable(self, bp: Blueprints) -> bool {
        &&& pos_safe(self.pos_spec())
        &&& self matches UniverseChange::Add { block, .. } ==> (block.id as int) < bp.blocks@.len()
    }
}

/// The beam of a column after a block is placed at `pos` in it: a beam
/// that lit `pos` now ends just above it, any other is unchanged.
pub open spec fn beam_after_add(b: SunBeam, n: SunBeam, pos: IVec3) -> bool {
    &&& b.has(pos.y as int) ==> n.top == b.top && n.bottom == (if pos.y + 1 <= b.top {
        pos.y + 1
    } else {
        b.top as int
    })
    &&& !b.has(pos.y as int) ==> n == b
}

/// What one change does, from the universe, light queues and sun beams
/// `u0`, `ls0`, `sb0` before it to `u1`, `ls1`, `sb1` after it.
///
/// A removal leaves the Air block, puts out the light that the removed block
/// gave, queues the light of every transparent loaded neighbour lit above
/// one and lets the beam of the column fall through. A placement writes the
/// block, darkens what it shades (the sunlight of the column below it, from
/// the bottom of its beam up), queues the block's own torch light and cuts
/// the beam of the column at the block.
pub open spec fn change_applied(
    u0: Universe,
    ls0: LightSources,
    sb0: SunBeams,
    u1: Universe,
    ls1: LightSources,
    sb1: SunBeams,
    change: UniverseChange,
    bp: Blueprints,
) -> bool {
    let col = crate::ivec::column_of(change.pos_spec());
    &&& u1.chunks@.dom() == u0.chunks@.dom()
    &&& leaked_appended(ls0, ls1)
    &&& forall|c: crate::ivec::IVec2| c != col ==> #[trigger] sb1.beam_at(c) == sb0.beam_at(c)
    &&& match change {
        UniverseChange::Remove { pos } => {
            &&& darker_except(u0, u1, pos, LightType::Torch)
            &&& u0.block_at(pos).is_some() ==> u1.block_at(pos) is Some && crate::block::made_from(
                u1.block_at(pos).unwrap(),
                bp.blocks@[bp.first_named("Air"@)],
            )
            &&& u0.block_at(pos).is_none() ==> u1.block_at(pos).is_none()
            &&& beam_after_removal(u1, sb0.beam_at(col), sb1.beam_at(col), pos)
            &&& forall|j: int|
                ls0.leaked_sources.torch@.len() <= j < ls1.leaked_sources.torch@.len() ==> #[trigger] torch_requeued(
                    u0,
                    u1,
                    bp,
                    ls1.leaked_sources.torch@[j],
                    pos,
                )
            &&& forall|j: int|
                ls0.leaked_sources.sun@.len() <= j < ls1.leaked_sources.sun@.len() ==> #[trigger] sun_requeued(
                    u1,
                    ls1.leaked_sources.sun@[j],
                    pos,
                )
            &&& forall|d: int| 0 <= d < 6 ==> #[trigger] neighbour_queued(u1, ls1.leaked_sources.torch@, pos, d, LightType::Torch)
            &&& forall|d: int| 0 <= d < 6 ==> #[trigger] neighbour_queued(u1, ls1.leaked_sources.sun@, pos, d, LightType::Sun)
            &&& exists|um: Universe|
                #[trigger] removal_darkened(
                    u0,
                    um,
                    u1,
                    pos,
                    bp,
                    ls0.leaked_sources.torch@,
                    ls1.leaked_sources.torch@,
                )
        },
        UniverseChange::Add { pos, block } => {
            &&& darker_except(u0, u1, pos, LightType::Sun)
            &&& u0.block_at(pos).is_some() ==> u1.block_at(pos).is_some() && darker_block(
                block,
                u1.block_at(pos).unwrap(),
                LightType::Sun,
            )
            &&& u0.block_at(pos).is_none() ==> u1.block_at(pos).is_none()
            &&& ls1.leaked_sources.torch@ == ls0.leaked_sources.torch@.push(
                LightSource { pos, brightness: bp.blocks@[block.id as int].light_level },
            )
            &&& beam_after_add(sb0.beam_at(col), sb1.beam_at(col), pos)
            &&& exists|us: Seq<Universe>, wit: Seq<int>|
                #[trigger] placement_shaded(
                    us,
                    wit,
                    u0,
                    u1,
                    pos,
                    block,
                    sb0.beam_at(col),
                    bp,
                    ls0.leaked_sources.sun@,
                    ls1.leaked_sources.sun@,
                )
        },
    }
}

/// Applies one change: see [`add_block`] and [`remove_block`].
pub fn apply_terrain_change(
    universe: &mut Universe,
    change: &UniverseChange,
    light_sources: &mut LightSources,
    sun_beams: &mut SunBeams,
    bp: &Blueprints,
)
    requires
        old(universe).wf(),
        bp.wf(),
        bp.has_named("Air"@),
        ids_known(*old(universe), *bp),
        old(light_sources).wf(),
        beams_safe(*old(sun_beams)),
        change.applicable(*bp),
    ensures
        final(universe).wf(),
        ids_known(*final(universe), *bp),
        final(universe).chunks@.dom() == old(universe).chunks@.dom(),
        final(light_sources).wf(),
        leaked_appended(*old(light_sources), *final(light_sources)),
        beams_safe(*final(sun_beams)),
        forall|c: crate::ivec::IVec2|
            c != crate::ivec::column_of(change.pos_spec()) ==> #[trigger] final(sun_beams).beam_at(c)
                == old(sun_beams).beam_at(c),
        change_applied(
            *old(universe),
            *old(light_sources),
            *old(sun_beams),
            *final(universe),
            *final(light_sources),
            *final(sun_beams),
            *change,
            *bp,
        ),
{
    match change {
        UniverseChange::Remove { pos } => {
            remove_block(universe, *pos, light_sources, sun_beams, bp);
        },
        UniverseChange::Add { pos, block } => {
            add_block(universe, *pos, *block, light_sources, sun_beams, bp);
        },
    }
}

/// The identifier of the block at `p`, if its chunk is loaded.
pub open spec fn id_at(u: Universe, p: IVec3) -> Option<u8> {
    match u.block_at(p) {
        Some(b) => Some(b.id),
        None => None,
    }
}

/// The identifier at `p` once the changes `q` are applied to `u` in order:
/// that of the last change at `p` (`air` for a removal), or the one `u` had
/// if no change is at `p`; nothing if the chunk of `p` is not loaded.
pub open spec fn id_after(u: Universe, q: Seq<UniverseChange>, p: IVec3, air: u8) -> Option<u8>
    decreases q.len(),
{
    if q.len() == 0 {
        id_at(u, p)
    } else {
        let prev = id_after(u, q.drop_last(), p, air);
        if q.last().pos_spec() == p && prev.is_some() {
            match q.last() {
                UniverseChange::Add { block, .. } => Some(block.id),
                UniverseChange::Remove { .. } => Some(air),
            }
        } else {
            prev
        }
    }
}

/// The changes `q` were applied in order: the universes `us`, light queues
/// `lss` and sun beams `sbs` are the states before the first change, between
/// two changes and after the last, and each step is [`change_applied`].
pub open spec fn changes_applied(
    us: Seq<Universe>,
    lss: Seq<LightSources>,
    sbs: Seq<SunBeams>,
    q: Seq<UniverseChange>,
    bp: Blueprints,
) -> bool {
    &&& us.len() == q.len() + 1
    &&& lss.len() == q.len() + 1
    &&& sbs.len() == q.len() + 1
    &&& forall|k: int|
        0 <= k < q.len() ==> #[trigger] change_applied(
            us[k],
            lss[k],
            sbs[k],
            us[k + 1],
            lss[k + 1],
            sbs[k + 1],
            q[k],
            bp,
        )
}

/// Applies the waiting changes in order and empties the queue; every
/// position then holds the block of the last change made to it.
#[verifier::rlimit(40)]
#[verifier::spinoff_prover]
pub fn apply_terrain_changes(
    universe: &mut Universe,
    changes: &mut UniverseChanges,
    light_sources: &mut LightSources,
    sun_beams: &mut SunBeams,
    bp: &Blueprints,
)
    requires
        old(universe).wf(),
        bp.wf(),
        bp.has_named("Air"@),
        ids_known(*old(universe), *bp),
        old(light_sources).wf(),
        beams_safe(*old(sun_beams)),
        forall|i: int| 0 <= i < old(changes).queue@.len() ==> #[trigger] old(changes).queue@[i].applicable(*bp),
    ensures
        final(changes).queue@ == Seq::<UniverseChange>::empty(),
        final(universe).wf(),
        ids_known(*final(universe), *bp),
        final(universe).chunks@.dom() == old(universe).chunks@.dom(),
        final(light_sources).wf(),
        leaked_appended(*old(light_sources), *final(light_sources)),
        beams_safe(*final(sun_beams)),
        forall|p: IVec3|
            #[trigger] id_at(*final(universe), p) == id_after(
                *old(universe),
                old(changes).queue@,
                p,
                bp.blocks@[bp.first_named("Air"@)].id,
            ),
        exists|us: Seq<Universe>, lss: Seq<LightSources>, sbs: Seq<SunBeams>|
            {
                &&& #[trigger] changes_applied(us, lss, sbs, old(changes).queue@, *bp)
                &&& us[0] == *old(universe)
                &&& lss[0] == *old(light_sources)
                &&& sbs[0] == *old(sun_beams)
                &&& us.last() == *final(universe)
                &&& lss.last() == *final(light_sources)
                &&& sbs.last() == *final(sun_beams)
            },
{
    let ghost ls0 = *light_sources;
    let ghost u0 = *universe;
    let ghost sb0 = *sun_beams;
    let ghost air = bp.blocks@[bp.first_named("Air"@)].id;
    let ghost mut us: Seq<Universe> = seq![u0];
    let ghost mut lss: Seq<LightSources> = seq![ls0];
    let ghost mut sbs: Seq<SunBeams> = seq![sb0];
    let mut i: usize = 0;
    while i < changes.queue.len()
        invariant
            i <= changes.queue@.len(),
            changes.queue@ == old(changes).queue@,
            universe.wf(),
            bp.wf(),
            bp.has_named("Air"@),
            ids_known(*universe, *bp),
            universe.chunks@.dom() == u0.chunks@.dom(),
            light_sources.wf(),
            leaked_appended(ls0, *light_sources),
            beams_safe(*sun_beams),
            forall|j: int| 0 <= j < changes.queue@.len() ==> #[trigger] changes.queue@[j].applicable(*bp),
            air == bp.blocks@[bp.first_named("Air"@)].id,
            forall|p: IVec3|
                #[trigger] id_at(*universe, p) == id_after(u0, changes.queue@.subrange(0, i as int), p, air),
            changes_applied(us, lss, sbs, changes.queue@.subrange(0, i as int), *bp),
            us[0] == u0,
            lss[0] == ls0,
            sbs[0] == sb0,
            us.last() == *universe,
            lss.last() == *light_sources,
            sbs.last() == *sun_beams,
        decreases changes.queue.len() - i,
    {
        let ghost ls_before = *light_sources;
        let ghost u_before = *universe;
        let ghost sb_before = *sun_beams;
        let change = changes.queue[i];
        apply_terrain_change(universe, &change, light_sources, sun_beams, bp);
        proof {
            let q = changes.queue@.subrange(0, i + 1);
            assert(q.drop_last() =~= changes.queue@.subrange(0, i as int));
            assert(q.last() == change);
            lemma_ids_after_step(u0, u_before, *universe, ls_before, *light_sources, sb_before, *sun_beams, q, *bp, air);
            let us1 = us.push(*universe);
            let lss1 = lss.push(*light_sources);
            let sbs1 = sbs.push(*sun_beams);
            assert forall|k: int| 0 <= k < q.len() implies #[trigger] change_applied(
                us1[k],
                lss1[k],
                sbs1[k],
                us1[k + 1],
                lss1[k + 1],
                sbs1[k + 1],
                q[k],
                *bp,
            ) by {
                if k < i {
                    assert(q[k] == q.drop_last()[k]);
                    assert(change_applied(us[k], lss[k], sbs[k], us[k + 1], lss[k + 1], sbs[k + 1], q.drop_last()[k], *bp));
                }
            }
            us = us1;
            lss = lss1;
            sbs = sbs1;
            assert(changes.queue@[i as int].applicable(*bp));
            lemma_prefix_trans(ls0.leaked_sources.torch@, ls_before.leaked_sources.torch@, light_sources.leaked_sources.torch@);
            lemma_prefix_trans(ls0.leaked_sources.sun@, ls_before.leaked_sources.sun@, light_sources.leaked_sources.sun@);
        }
        i = i + 1;
    }
    proof {
        assert(changes.queue@.subrange(0, i as int) =~= old(changes).queue@);
    }
    changes.queue.clear();
}

/// One more change keeps every identifier that of the last change made at
/// its position.
proof fn lemma_ids_after_step(
    u0: Universe,
    u_before: Universe,
    u_after: Universe,
    ls_before: LightSources,
    ls_after: LightSources,
    sb_before: SunBeams,
    sb_after: SunBeams,
    q: Seq<UniverseChange>,
    bp: Blueprints,
    air: u8,
)
    requires
        q.len() > 0,
        air == bp.blocks@[bp.first_named("Air"@)].id,
        bp.has_named("Air"@),
        bp.wf(),
        forall|p: IVec3| #[trigger] id_at(u_before, p) == id_after(u0, q.drop_last(), p, air),
        change_applied(u_before, ls_before, sb_before, u_after, ls_after, sb_after, q.last(), bp),
    ensures
        forall|p: IVec3| #[trigger] id_at(u_after, p) == id_after(u0, q, p, air),
{
    let change = q.last();
    assert forall|p: IVec3| #[trigger] id_at(u_after, p) == id_after(u0, q, p, air) by {
        assert(id_at(u_before, p) == id_after(u0, q.drop_last(), p, air));
        if p != change.pos_spec() {
            match change {
                UniverseChange::Remove { pos } => {
                    assert(darker_except(u_before, u_after, pos, LightType::Torch));
                    assert(darker_at(u_before, u_after, p, LightType::Torch));
                },
                UniverseChange::Add { pos, block } => {
                    assert(darker_except(u_before, u_after, pos, LightType::Sun));
                    assert(darker_at(u_before, u_after, p, LightType::Sun));
                },
            }
        }
    }
}

proof fn lemma_prefix_trans(a: Seq<LightSource>, b: Seq<LightSource>, c: Seq<LightSource>)
    requires
        a.is_prefix_of(b),
        b.is_prefix_of(c),
    ensures
        a.is_prefix_of(c),
{
    assert(c.subrange(0, a.len() as int) =~= a) by {
        assert(b.subrange(0, a.len() as int) =~= a);
        assert(c.subrange(0, b.len() as int) =~= b);
    }
}

} // verus!
