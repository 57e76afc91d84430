//! Flood-fill propagation of light inside a chunk, and of darkness across the
//! universe.
use vstd::prelude::*;
use std::collections::VecDeque;
use crate::block::{lemma_light_bounds, Block, Blueprints, LightType};
use crate::chunk::{contains, in_chunk, index_of, xyz2idx};
use crate::ivec::{pos_key, IVec3};
use crate::universe::{chunk_origin, inner_pos, Universe};
use crate::CHUNK_VOLUME;

verus! {

/// Bound on the positions handled by one light propagation.
pub const MAX_LIGHTING_PROPAGATION: usize = 1000000;

/// Bound on the rounds of one darkness propagation.
pub const MAX_DARKNESS_PROPAGATION: usize = 100000;

/// The six axis directions, in the order `+x, +y, +z, -x, -y, -z`.
pub open spec fn dir_spec(d: int) -> IVec3 {
    if d == 0 {
        IVec3 { x: 1, y: 0, z: 0 }
    } else if d == 1 {
        IVec3 { x: 0, y: 1, z: 0 }
    } else if d == 2 {
        IVec3 { x: 0, y: 0, z: 1 }
    } else if d == 3 {
        IVec3 { x: -1i32, y: 0, z: 0 }
    } else if d == 4 {
        IVec3 { x: 0, y: -1i32, z: 0 }
    } else {
        IVec3 { x: 0, y: 0, z: -1i32 }
    }
}

/// Direction `d` of the six axis directions.
pub fn dir(d: usize) -> (r: IVec3)
    requires
        d < 6,
    ensures
        r == dir_spec(d as int),
{
    if d == 0 {
        IVec3 { x: 1, y: 0, z: 0 }
    } else if d == 1 {
        IVec3 { x: 0, y: 1, z: 0 }
    } else if d == 2 {
        IVec3 { x: 0, y: 0, z: 1 }
    } else if d == 3 {
        IVec3 { x: -1, y: 0, z: 0 }
    } else if d == 4 {
        IVec3 { x: 0, y: -1, z: 0 }
    } else {
        IVec3 { x: 0, y: 0, z: -1 }
    }
}

/// The neighbour of `p` in direction `d`.
pub open spec fn step(p: IVec3, d: int) -> IVec3 {
    IVec3 {
        x: (p.x + dir_spec(d).x) as i32,
        y: (p.y + dir_spec(d).y) as i32,
        z: (p.z + dir_spec(d).z) as i32,
    }
}

/// Whether `p` is inside a chunk or next to it.
pub open spec fn near_chunk(p: IVec3) -> bool {
    &&& -1 <= p.x <= 32
    &&& -1 <= p.y <= 32
    &&& -1 <= p.z <= 32
}

/// A position with the brightness of the light that reaches it.
#[derive(Debug, Clone, Copy, PartialEq, Eq, Structural)]
pub struct LightSource {
    pub pos: IVec3,
    pub brightness: u8,
}

/// Light of kind `lt` of the block at `p` in a block array.
pub open spec fn light_at(s: Seq<Block>, p: IVec3, lt: LightType) -> int {
    s[index_of(p)].light_of(lt) as int
}

/// Light has been passed on from `p` in direction `d`: a transparent neighbour
/// inside the chunk is at most one level darker than `p`, and light that
/// reaches past the chunk border is recorded as leaking there.
pub open spec fn dir_settled(s: Seq<Block>, leaks: Seq<LightSource>, p: IVec3, d: int, lt: LightType) -> bool {
    let q = step(p, d);
    if in_chunk(q) {
        !s[index_of(q)].is_opaque() ==> light_at(s, q, lt) + 2 > light_at(s, p, lt)
    } else {
        light_at(s, p, lt) > 0 ==> leaks.contains(
            LightSource { pos: q, brightness: (light_at(s, p, lt) - 1) as u8 },
        )
    }
}

/// Light has been passed on from `p` in all six directions.
pub open spec fn settled(s: Seq<Block>, leaks: Seq<LightSource>, p: IVec3, lt: LightType) -> bool {
    forall|d: int| 0 <= d < 6 ==> #[trigger] dir_settled(s, leaks, p, d, lt)
}

/// Only light of kind `lt` may differ between `a` and `b`, it may only grow,
/// and only in blocks that let light through.
pub open spec fn only_brighter(a: Seq<Block>, b: Seq<Block>, lt: LightType) -> bool {
    &&& a.len() == b.len()
    &&& forall|i: int|
        0 <= i < a.len() ==> {
            &&& #[trigger] b[i].id == a[i].id
            &&& b[i].properties == a[i].properties
            &&& b[i].light_of(lt) >= a[i].light_of(lt)
            &&& (forall|o: LightType| o != lt ==> b[i].light_of(o) == a[i].light_of(o))
            &&& b[i].light_of(lt) != a[i].light_of(lt) ==> !a[i].is_opaque()
        }
}

pub proof fn lemma_only_brighter_trans(a: Seq<Block>, b: Seq<Block>, c: Seq<Block>, lt: LightType)
    requires
        only_brighter(a, b, lt),
        only_brighter(b, c, lt),
    ensures
        only_brighter(a, c, lt),
{
    assert forall|i: int| 0 <= i < a.len() implies {
        &&& #[trigger] c[i].id == a[i].id
        &&& c[i].properties == a[i].properties
        &&& c[i].light_of(lt) >= a[i].light_of(lt)
        &&& (forall|o: LightType| o != lt ==> c[i].light_of(o) == a[i].light_of(o))
        &&& c[i].light_of(lt) != a[i].light_of(lt) ==> !a[i].is_opaque()
    } by {
        assert(b[i].id == a[i].id);
        assert(c[i].id == b[i].id);
    }
}

pub proof fn lemma_only_brighter_step(a: Seq<Block>, i: int, nb: Block, lt: LightType)
    requires
        0 <= i < a.len(),
        nb.id == a[i].id,
        nb.properties == a[i].properties,
        nb.light_of(lt) >= a[i].light_of(lt),
        forall|o: LightType| o != lt ==> nb.light_of(o) == a[i].light_of(o),
        nb.light_of(lt) != a[i].light_of(lt) ==> !a[i].is_opaque(),
    ensures
        only_brighter(a, a.update(i, nb), lt),
{
    let b = a.update(i, nb);
    assert forall|j: int| 0 <= j < a.len() implies {
        &&& #[trigger] b[j].id == a[j].id
        &&& b[j].properties == a[j].properties
        &&& b[j].light_of(lt) >= a[j].light_of(lt)
        &&& (forall|o: LightType| o != lt ==> b[j].light_of(o) == a[j].light_of(o))
        &&& b[j].light_of(lt) != a[j].light_of(lt) ==> !a[j].is_opaque()
    } by {
        if j == i {
        } else {
            assert(b[j] == a[j]);
        }
    }
}

/// How much darker than full brightness the first `n` blocks are, summed.
pub open spec fn deficit(s: Seq<Block>, lt: LightType, n: int) -> int
    decreases n,
{
    if n <= 0 {
        0
    } else {
        deficit(s, lt, n - 1) + (15 - s[n - 1].light_of(lt))
    }
}

proof fn lemma_deficit_bounds(s: Seq<Block>, lt: LightType, n: int)
    requires
        0 <= n <= s.len(),
    ensures
        0 <= deficit(s, lt, n) <= 15 * n,
    decreases n,
{
    if n > 0 {
        lemma_deficit_bounds(s, lt, n - 1);
        lemma_light_bounds(s[n - 1].light);
    }
}

proof fn lemma_deficit_update(s: Seq<Block>, lt: LightType, n: int, i: int, b: Block)
    requires
        0 <= i < n <= s.len(),
    ensures
        deficit(s.update(i, b), lt, n) == deficit(s, lt, n) - (15 - s[i].light_of(lt)) + (15
            - b.light_of(lt)),
    decreases n,
{
    if n - 1 > i {
        lemma_deficit_update(s, lt, n - 1, i, b);
    } else {
        assert(deficit(s.update(i, b), lt, n - 1) == deficit(s, lt, n - 1)) by {
            lemma_deficit_prefix(s, s.update(i, b), lt, n - 1);
        }
    }
}

proof fn lemma_deficit_prefix(s: Seq<Block>, t: Seq<Block>, lt: LightType, n: int)
    requires
        0 <= n <= s.len(),
        n <= t.len(),
        forall|j: int| 0 <= j < n ==> s[j] == t[j],
    ensures
        deficit(s, lt, n) == deficit(t, lt, n),
    decreases n,
{
    if n > 0 {
        lemma_deficit_prefix(s, t, lt, n - 1);
    }
}

/// Passes the light of `pos` on to its six neighbours: a transparent
/// neighbour inside the chunk at least two levels darker becomes one level
/// darker than `pos` and joins the frontier; light reaching past the chunk
/// border is recorded as leaking.
fn spread_light(
    chunk_mut: &mut Vec<Block>,
    pos: IVec3,
    lt: LightType,
    frontier: &mut VecDeque<IVec3>,
    leaking: &mut Vec<LightSource>,
)
    requires
        old(chunk_mut)@.len() == CHUNK_VOLUME,
        in_chunk(pos),
    ensures
        final(chunk_mut)@.len() == CHUNK_VOLUME,
        only_brighter(old(chunk_mut)@, final(chunk_mut)@, lt),
        light_at(final(chunk_mut)@, pos, lt) == light_at(old(chunk_mut)@, pos, lt),
        old(frontier)@.len() <= final(frontier)@.len(),
        forall|i: int| 0 <= i < old(frontier)@.len() ==> final(frontier)@[i] == old(frontier)@[i],
        forall|i: int|
            old(frontier)@.len() <= i < final(frontier)@.len() ==> in_chunk(#[trigger] final(frontier)@[i]),
        final(frontier)@.len() - old(frontier)@.len() <= deficit(old(chunk_mut)@, lt, CHUNK_VOLUME as int)
            - deficit(final(chunk_mut)@, lt, CHUNK_VOLUME as int),
        old(leaking)@.len() <= final(leaking)@.len(),
        forall|i: int| 0 <= i < old(leaking)@.len() ==> final(leaking)@[i] == old(leaking)@[i],
        forall|i: int|
            #![trigger final(leaking)@[i]]
            old(leaking)@.len() <= i < final(leaking)@.len() ==> !in_chunk(final(leaking)@[i].pos)
                && near_chunk(final(leaking)@[i].pos) && final(leaking)@[i].brightness < 15,
        forall|p: IVec3|
            in_chunk(p) && light_at(final(chunk_mut)@, p, lt) != light_at(old(chunk_mut)@, p, lt)
                ==> #[trigger] final(frontier)@.contains(p),
        settled(final(chunk_mut)@, final(leaking)@, pos, lt),
        forall|i: int|
            old(frontier)@.len() <= i < final(frontier)@.len() ==> light_at(
                final(chunk_mut)@,
                #[trigger] final(frontier)@[i],
                lt,
            ) + 1 <= light_at(old(chunk_mut)@, pos, lt),
        forall|p: IVec3|
            in_chunk(p) && #[trigger] light_at(final(chunk_mut)@, p, lt) != light_at(old(chunk_mut)@, p, lt)
                ==> light_at(final(chunk_mut)@, p, lt) + 1 <= light_at(old(chunk_mut)@, pos, lt),
        forall|i: int|
            #![trigger final(leaking)@[i]]
            old(leaking)@.len() <= i < final(leaking)@.len() ==> leak_from_chunk(
                final(chunk_mut)@,
                final(leaking)@[i],
                lt,
            ),
{
    let ghost mid = chunk_mut@;
    let ghost leak_mid = leaking@;
    let ghost f_mid = frontier@;
    proof {
        lemma_deficit_bounds(mid, lt, CHUNK_VOLUME as int);
    }
    let pi = xyz2idx(pos);
    let light = chunk_mut[pi].get_light(lt);
    let mut d: usize = 0;
    while d < 6
        invariant
            0 <= d <= 6,
            in_chunk(pos),
            pi == index_of(pos),
            light == light_at(chunk_mut@, pos, lt),
            light <= 15,
            chunk_mut@.len() == CHUNK_VOLUME,
            only_brighter(mid, chunk_mut@, lt),
            light_at(chunk_mut@, pos, lt) == light_at(mid, pos, lt),
            f_mid.len() <= frontier@.len(),
            forall|i: int| 0 <= i < f_mid.len() ==> frontier@[i] == f_mid[i],
            forall|i: int| f_mid.len() <= i < frontier@.len() ==> in_chunk(#[trigger] frontier@[i]),
            frontier@.len() - f_mid.len() <= deficit(mid, lt, CHUNK_VOLUME as int) - deficit(
                chunk_mut@,
                lt,
                CHUNK_VOLUME as int,
            ),
            leak_mid.len() <= leaking@.len(),
            forall|i: int| 0 <= i < leak_mid.len() ==> leaking@[i] == leak_mid[i],
            forall|i: int|
                #![trigger leaking@[i]]
                leak_mid.len() <= i < leaking@.len() ==> !in_chunk(leaking@[i].pos)
                    && near_chunk(leaking@[i].pos) && leaking@[i].brightness < 15,
            forall|p: IVec3|
                in_chunk(p) && light_at(chunk_mut@, p, lt) != light_at(mid, p, lt)
                    ==> #[trigger] frontier@.contains(p),
            forall|dd: int| 0 <= dd < d ==> #[trigger] dir_settled(chunk_mut@, leaking@, pos, dd, lt),
            forall|i: int|
                f_mid.len() <= i < frontier@.len() ==> light_at(chunk_mut@, #[trigger] frontier@[i], lt) + 1 <= light,
            forall|p: IVec3|
                in_chunk(p) && #[trigger] light_at(chunk_mut@, p, lt) != light_at(mid, p, lt) ==> light_at(
                    chunk_mut@,
                    p,
                    lt,
                ) + 1 <= light,
            forall|i: int|
                #![trigger leaking@[i]]
                leak_mid.len() <= i < leaking@.len() ==> leak_from_chunk(chunk_mut@, leaking@[i], lt),
        decreases 6 - d,
    {
        let dv = dir(d);
        let target = pos.add(&dv);
        let ghost before = chunk_mut@;
        let ghost leak_before = leaking@;
        let ghost fr_before = frontier@;
        proof {
            assert(step(pos, d as int) == target);
        }
        if contains(&target) {
            let ti = xyz2idx(target);
            let neighbor = chunk_mut[ti];
            let nl = neighbor.get_light(lt);
            if !neighbor.opaque() && nl + 2 <= light {
                let mut nb = neighbor;
                nb.set_light(lt, light - 1);
                chunk_mut.set(ti, nb);
                frontier.push_back(target);
                proof {
                    lemma_only_brighter_step(before, ti as int, nb, lt);
                    assert(chunk_mut@ == before.update(ti as int, nb));
                    lemma_only_brighter_trans(mid, before, chunk_mut@, lt);
                    lemma_deficit_update(before, lt, CHUNK_VOLUME as int, ti as int, nb);
                    lemma_light_bounds(nb.light);
                    if index_of(target) == index_of(pos) {
                        crate::chunk::lemma_index_injective(target, pos);
                    }
                    assert(frontier@[frontier@.len() - 1] == target);
                    assert forall|p: IVec3|
                        in_chunk(p) && light_at(chunk_mut@, p, lt) != light_at(mid, p, lt)
                            implies #[trigger] frontier@.contains(p) by {
                        if p != target {
                            if index_of(p) == index_of(target) {
                                crate::chunk::lemma_index_injective(p, target);
                            }
                            assert(light_at(chunk_mut@, p, lt) == light_at(before, p, lt));
                            assert(fr_before.contains(p));
                            let j = choose|j: int| 0 <= j < fr_before.len() && fr_before[j] == p;
                            assert(frontier@[j] == p);
                        }
                    }
                    assert forall|dd: int| 0 <= dd < d + 1 implies #[trigger] dir_settled(
                        chunk_mut@,
                        leaking@,
                        pos,
                        dd,
                        lt,
                    ) by {
                        if dd < d {
                            assert(dir_settled(before, leaking@, pos, dd, lt));
                            let q = step(pos, dd);
                            if in_chunk(q) && index_of(q) == index_of(target) {
                                crate::chunk::lemma_index_injective(q, target);
                            }
                        }
                    }
                    assert forall|p: IVec3|
                        in_chunk(p) && #[trigger] light_at(chunk_mut@, p, lt) != light_at(mid, p, lt) implies light_at(
                        chunk_mut@,
                        p,
                        lt,
                    ) + 1 <= light by {
                        if p != target {
                            if index_of(p) == index_of(target) {
                                crate::chunk::lemma_index_injective(p, target);
                            }
                            assert(light_at(chunk_mut@, p, lt) == light_at(before, p, lt));
                        }
                    }
                    assert forall|i: int|
                        f_mid.len() <= i < frontier@.len() implies light_at(chunk_mut@, #[trigger] frontier@[i], lt) + 1
                            <= light by {
                        let f = frontier@[i];
                        if f != target {
                            assert(f == fr_before[i]);
                            assert(light_at(before, f, lt) + 1 <= light);
                            if index_of(f) == index_of(target) {
                                crate::chunk::lemma_index_injective(f, target);
                            }
                            assert(light_at(chunk_mut@, f, lt) == light_at(before, f, lt));
                        }
                    }
                    assert forall|i: int|
                        #![trigger leaking@[i]]
                        leak_mid.len() <= i < leaking@.len() implies leak_from_chunk(chunk_mut@, leaking@[i], lt) by {
                        lemma_leak_from_chunk_keep(before, chunk_mut@, leaking@[i], lt);
                    }
                }
            } else {
                proof {
                    assert(dir_settled(chunk_mut@, leaking@, pos, d as int, lt));
                }
            }
        } else if light > 0 {
            leaking.push(LightSource { pos: target, brightness: light - 1 });
            proof {
                assert(leaking@[leaking@.len() - 1] == LightSource {
                    pos: target,
                    brightness: (light - 1) as u8,
                });
                assert(leak_from_chunk(chunk_mut@, leaking@[leaking@.len() - 1], lt)) by {
                    assert(step(pos, d as int) == target);
                }
                assert forall|i: int|
                    #![trigger leaking@[i]]
                    leak_mid.len() <= i < leaking@.len() implies leak_from_chunk(chunk_mut@, leaking@[i], lt) by {
                    if i < leaking@.len() - 1 {
                        assert(leaking@[i] == leak_before[i]);
                    }
                }
                assert forall|dd: int| 0 <= dd < d + 1 implies #[trigger] dir_settled(
                    chunk_mut@,
                    leaking@,
                    pos,
                    dd,
                    lt,
                ) by {
                    if dd < d {
                        assert(dir_settled(chunk_mut@, leak_before, pos, dd, lt));
                        let q = step(pos, dd);
                        if !in_chunk(q) && light_at(chunk_mut@, pos, lt) > 0 {
                            let w = LightSource {
                                pos: q,
                                brightness: (light_at(chunk_mut@, pos, lt) - 1) as u8,
                            };
                            let j = choose|j: int| 0 <= j < leak_before.len() && leak_before[j] == w;
                            assert(leaking@[j] == w);
                        }
                    }
                }
            }
        }
        d = d + 1;
    }
}

/// `l` leaves the chunk from a block of it one step away, lit at least one
/// level above `l`.
pub open spec fn leak_from_chunk(s: Seq<Block>, l: LightSource, lt: LightType) -> bool {
    exists|p: IVec3, d: int| in_chunk(p) && 0 <= d < 6 && #[trigger] step(p, d) == l.pos && light_at(s, p, lt) >= l.brightness + 1
}

/// Some source had, in `s0`, light `v` at least.
pub open spec fn below_some_source(s0: Seq<Block>, sources: Seq<IVec3>, v: int, lt: LightType) -> bool {
    exists|j: int| 0 <= j < sources.len() && v <= #[trigger] light_at(s0, sources[j], lt)
}

proof fn lemma_leak_from_chunk_keep(a: Seq<Block>, b: Seq<Block>, l: LightSource, lt: LightType)
    requires
        a.len() == CHUNK_VOLUME,
        only_brighter(a, b, lt),
        leak_from_chunk(a, l, lt),
    ensures
        leak_from_chunk(b, l, lt),
{
    let (p, d) = choose|p: IVec3, d: int| in_chunk(p) && 0 <= d < 6 && #[trigger] step(p, d) == l.pos && light_at(a, p, lt) >= l.brightness + 1;
    crate::chunk::lemma_index_of_pos(p);
    assert(b[index_of(p)].id == a[index_of(p)].id);
    assert(light_at(b, p, lt) >= l.brightness + 1);
}

proof fn lemma_popped_bounds(
    s0: Seq<Block>,
    mid: Seq<Block>,
    after: Seq<Block>,
    sources: Seq<IVec3>,
    f_before: Seq<IVec3>,
    f_mid: Seq<IVec3>,
    f_after: Seq<IVec3>,
    leak_mid: Seq<LightSource>,
    leak_after: Seq<LightSource>,
    pos: IVec3,
    lt: LightType,
)
    requires
        s0.len() == CHUNK_VOLUME,
        mid.len() == CHUNK_VOLUME,
        in_chunk(pos),
        f_before.len() > 0,
        f_before[0] == pos,
        f_mid == f_before.subrange(1, f_before.len() as int),
        forall|i: int| 0 <= i < f_before.len() ==> in_chunk(#[trigger] f_before[i]),
        only_brighter(s0, mid, lt),
        only_brighter(mid, after, lt),
        forall|i: int| #![trigger leak_mid[i]] 0 <= i < leak_mid.len() ==> leak_from_chunk(mid, leak_mid[i], lt),
        forall|p: IVec3|
            in_chunk(p) && #[trigger] light_at(mid, p, lt) != light_at(s0, p, lt) ==> below_some_source(
                s0,
                sources,
                light_at(mid, p, lt) + 1,
                lt,
            ),
        forall|i: int|
            0 <= i < f_before.len() ==> below_some_source(s0, sources, light_at(mid, #[trigger] f_before[i], lt), lt),
        f_mid.len() <= f_after.len(),
        forall|i: int| 0 <= i < f_mid.len() ==> f_after[i] == f_mid[i],
        forall|i: int| f_mid.len() <= i < f_after.len() ==> in_chunk(#[trigger] f_after[i]),
        forall|i: int|
            f_mid.len() <= i < f_after.len() ==> light_at(after, #[trigger] f_after[i], lt) + 1 <= light_at(mid, pos, lt),
        forall|p: IVec3|
            in_chunk(p) && #[trigger] light_at(after, p, lt) != light_at(mid, p, lt) ==> light_at(after, p, lt) + 1
                <= light_at(mid, pos, lt),
        leak_mid.len() <= leak_after.len(),
        forall|i: int| 0 <= i < leak_mid.len() ==> leak_after[i] == leak_mid[i],
        forall|i: int|
            #![trigger leak_after[i]]
            leak_mid.len() <= i < leak_after.len() ==> leak_from_chunk(after, leak_after[i], lt),
    ensures
        forall|i: int| #![trigger leak_after[i]] 0 <= i < leak_after.len() ==> leak_from_chunk(after, leak_after[i], lt),
        forall|p: IVec3|
            in_chunk(p) && #[trigger] light_at(after, p, lt) != light_at(s0, p, lt) ==> below_some_source(
                s0,
                sources,
                light_at(after, p, lt) + 1,
                lt,
            ),
        forall|i: int|
            0 <= i < f_after.len() ==> below_some_source(s0, sources, light_at(after, #[trigger] f_after[i], lt), lt),
{
    assert(below_some_source(s0, sources, light_at(mid, pos, lt), lt)) by {
        assert(light_at(mid, f_before[0], lt) == light_at(mid, pos, lt));
    }
    let jp = choose|j: int| 0 <= j < sources.len() && light_at(mid, pos, lt) <= #[trigger] light_at(s0, sources[j], lt);
    assert forall|i: int| #![trigger leak_after[i]] 0 <= i < leak_after.len() implies leak_from_chunk(after, leak_after[i], lt) by {
        if i < leak_mid.len() {
            assert(leak_after[i] == leak_mid[i]);
            lemma_leak_from_chunk_keep(mid, after, leak_mid[i], lt);
        }
    }
    assert forall|p: IVec3|
        in_chunk(p) && #[trigger] light_at(after, p, lt) != light_at(s0, p, lt) implies below_some_source(
        s0,
        sources,
        light_at(after, p, lt) + 1,
        lt,
    ) by {
        if light_at(after, p, lt) != light_at(mid, p, lt) {
            assert(light_at(after, p, lt) + 1 <= light_at(s0, sources[jp], lt));
        } else {
            assert(light_at(mid, p, lt) != light_at(s0, p, lt));
        }
    }
    assert forall|i: int| 0 <= i < f_after.len() implies below_some_source(
        s0,
        sources,
        light_at(after, #[trigger] f_after[i], lt),
        lt,
    ) by {
        let f = f_after[i];
        if i < f_mid.len() {
            assert(f == f_before[i + 1]);
            assert(below_some_source(s0, sources, light_at(mid, f_before[i + 1], lt), lt));
            if light_at(after, f, lt) != light_at(mid, f, lt) {
                assert(light_at(after, f, lt) + 1 <= light_at(s0, sources[jp], lt));
            }
        } else {
            assert(light_at(after, f, lt) <= light_at(s0, sources[jp], lt));
        }
    }
}

/// Propagates light of kind `lt` from `sources` through the block array of
/// one chunk, breadth first, and returns the light leaving the chunk: one
/// source per outside neighbour of a lit block, one level darker. Both the
/// sources and the returned positions are relative to the chunk origin.
///
/// A block becomes one level darker than a lit neighbour when it lets light
/// through and is at least two levels darker than that neighbour. When the
/// work is not cut short by `MAX_LIGHTING_PROPAGATION` (which the bound on
/// the number of sources guarantees), every source and every block whose
/// light changed has passed its light on in all six directions.
pub fn propagate_light_chunk(chunk_mut: &mut Vec<Block>, sources: Vec<IVec3>, lt: LightType) -> (r: Vec<LightSource>)
    requires
        old(chunk_mut)@.len() == CHUNK_VOLUME,
        forall|i: int| 0 <= i < sources@.len() ==> in_chunk(#[trigger] sources@[i]),
    ensures
        only_brighter(old(chunk_mut)@, final(chunk_mut)@, lt),
        forall|i: int|
            #![trigger r@[i]]
            0 <= i < r@.len() ==> !in_chunk(r@[i].pos) && near_chunk(r@[i].pos) && r@[i].brightness < 15,
        sources@.len() + 15 * CHUNK_VOLUME < MAX_LIGHTING_PROPAGATION ==> forall|p: IVec3|
            in_chunk(p) && (sources@.contains(p) || light_at(final(chunk_mut)@, p, lt) != light_at(
                old(chunk_mut)@,
                p,
                lt,
            )) ==> #[trigger] settled(final(chunk_mut)@, r@, p, lt),
        forall|i: int| #![trigger r@[i]] 0 <= i < r@.len() ==> leak_from_chunk(final(chunk_mut)@, r@[i], lt),
        forall|p: IVec3|
            in_chunk(p) && #[trigger] light_at(final(chunk_mut)@, p, lt) != light_at(old(chunk_mut)@, p, lt)
                ==> below_some_source(old(chunk_mut)@, sources@, light_at(final(chunk_mut)@, p, lt) + 1, lt),
{
    let ghost s0 = chunk_mut@;
    let mut leaking: Vec<LightSource> = Vec::new();
    let mut frontier: VecDeque<IVec3> = VecDeque::new();
    let mut k: usize = 0;
    while k < sources.len()
        invariant
            k <= sources@.len(),
            frontier@ == sources@.subrange(0, k as int),
        decreases sources.len() - k,
    {
        frontier.push_back(sources[k]);
        k = k + 1;
    }
    proof {
        assert(frontier@ =~= sources@);
        lemma_deficit_bounds(s0, lt, CHUNK_VOLUME as int);
        lemma_only_brighter_refl(s0, lt);
        assert forall|i: int| 0 <= i < frontier@.len() implies below_some_source(
            s0,
            sources@,
            light_at(chunk_mut@, #[trigger] frontier@[i], lt),
            lt,
        ) by {
            assert(frontier@[i] == sources@[i]);
        }
    }
    let ghost bounded = sources@.len() + 15 * CHUNK_VOLUME < MAX_LIGHTING_PROPAGATION;
    let mut iter: usize = 0;
    loop
        invariant_except_break
            chunk_mut@.len() == CHUNK_VOLUME,
            only_brighter(s0, chunk_mut@, lt),
            forall|i: int| 0 <= i < frontier@.len() ==> in_chunk(#[trigger] frontier@[i]),
            forall|i: int|
                #![trigger leaking@[i]]
                0 <= i < leaking@.len() ==> !in_chunk(leaking@[i].pos) && near_chunk(leaking@[i].pos) && leaking@[i].brightness < 15,
            iter + frontier@.len() <= sources@.len() + deficit(s0, lt, CHUNK_VOLUME as int)
                - deficit(chunk_mut@, lt, CHUNK_VOLUME as int),
            deficit(s0, lt, CHUNK_VOLUME as int) <= 15 * CHUNK_VOLUME,
            bounded == (sources@.len() + 15 * CHUNK_VOLUME < MAX_LIGHTING_PROPAGATION),
            bounded ==> forall|p: IVec3|
                in_chunk(p) && (sources@.contains(p) || light_at(chunk_mut@, p, lt) != light_at(
                    s0,
                    p,
                    lt,
                )) ==> frontier@.contains(p) || #[trigger] settled(chunk_mut@, leaking@, p, lt),
            forall|i: int| #![trigger leaking@[i]] 0 <= i < leaking@.len() ==> leak_from_chunk(chunk_mut@, leaking@[i], lt),
            forall|p: IVec3|
                in_chunk(p) && #[trigger] light_at(chunk_mut@, p, lt) != light_at(s0, p, lt) ==> below_some_source(
                    s0,
                    sources@,
                    light_at(chunk_mut@, p, lt) + 1,
                    lt,
                ),
            forall|i: int|
                0 <= i < frontier@.len() ==> below_some_source(s0, sources@, light_at(chunk_mut@, #[trigger] frontier@[i], lt), lt),
        ensures
            only_brighter(s0, chunk_mut@, lt),
            forall|i: int|
                #![trigger leaking@[i]]
                0 <= i < leaking@.len() ==> !in_chunk(leaking@[i].pos) && near_chunk(leaking@[i].pos) && leaking@[i].brightness < 15,
            bounded ==> forall|p: IVec3|
                in_chunk(p) && (sources@.contains(p) || light_at(chunk_mut@, p, lt) != light_at(
                    s0,
                    p,
                    lt,
                )) ==> #[trigger] settled(chunk_mut@, leaking@, p, lt),
            forall|i: int| #![trigger leaking@[i]] 0 <= i < leaking@.len() ==> leak_from_chunk(chunk_mut@, leaking@[i], lt),
            forall|p: IVec3|
                in_chunk(p) && #[trigger] light_at(chunk_mut@, p, lt) != light_at(s0, p, lt) ==> below_some_source(
                    s0,
                    sources@,
                    light_at(chunk_mut@, p, lt) + 1,
                    lt,
                ),
        decreases MAX_LIGHTING_PROPAGATION - iter,
    {
        let ghost f_before = frontier@;
        proof {
            lemma_deficit_bounds(chunk_mut@, lt, CHUNK_VOLUME as int);
        }
        let popped = if iter >= MAX_LIGHTING_PROPAGATION {
            None
        } else {
            frontier.pop_front()
        };
        let pos = match popped {
            Some(p) => p,
            None => {
                proof {
                    assert forall|p: IVec3|
                        bounded && in_chunk(p) && (sources@.contains(p) || light_at(chunk_mut@, p, lt)
                            != light_at(s0, p, lt)) implies #[trigger] settled(chunk_mut@, leaking@, p, lt) by {
                        if iter < MAX_LIGHTING_PROPAGATION {
                            assert(!frontier@.contains(p));
                        }
                    }
                }
                break;
            },
        };
        proof {
            assert(f_before[0] == pos);
            assert(frontier@ == f_before.subrange(1, f_before.len() as int));
        }
        let ghost mid = chunk_mut@;
        let ghost leak_mid = leaking@;
        let ghost f_mid = frontier@;
        spread_light(chunk_mut, pos, lt, &mut frontier, &mut leaking);
        iter = iter + 1;
        proof {
            lemma_popped_bounds(s0, mid, chunk_mut@, sources@, f_before, f_mid, frontier@, leak_mid, leaking@, pos, lt);
        }
        proof {
            lemma_only_brighter_trans(s0, mid, chunk_mut@, lt);
            assert forall|p: IVec3|
                bounded && in_chunk(p) && (sources@.contains(p) || light_at(chunk_mut@, p, lt) != light_at(
                    s0,
                    p,
                    lt,
                )) implies frontier@.contains(p) || #[trigger] settled(chunk_mut@, leaking@, p, lt) by {
                if p != pos && light_at(chunk_mut@, p, lt) == light_at(mid, p, lt) {
                    if f_before.contains(p) {
                        let j = choose|j: int| 0 <= j < f_before.len() && f_before[j] == p;
                        assert(j != 0);
                        assert(f_mid[j - 1] == p);
                        assert(frontier@[j - 1] == p);
                    } else {
                        assert(settled(mid, leak_mid, p, lt));
                        assert forall|dd: int| 0 <= dd < 6 implies #[trigger] dir_settled(
                            chunk_mut@,
                            leaking@,
                            p,
                            dd,
                            lt,
                        ) by {
                            assert(dir_settled(mid, leak_mid, p, dd, lt));
                            let q = step(p, dd);
                            if in_chunk(q) {
                                crate::chunk::lemma_index_of_pos(q);
                                crate::chunk::lemma_index_of_pos(p);
                                assert(chunk_mut@[index_of(q)].id == mid[index_of(q)].id);
                                assert(chunk_mut@[index_of(p)].id == mid[index_of(p)].id);
                            }
                            if !in_chunk(q) && light_at(mid, p, lt) > 0 {
                                let w = LightSource {
                                    pos: q,
                                    brightness: (light_at(mid, p, lt) - 1) as u8,
                                };
                                let j = choose|j: int| 0 <= j < leak_mid.len() && leak_mid[j] == w;
                                assert(leaking@[j] == w);
                            }
                        }
                    }
                }
            }
        }
    }
    leaking
}

pub proof fn lemma_only_brighter_refl(a: Seq<Block>, lt: LightType)
    ensures
        only_brighter(a, a, lt),
{
}

} // verus!

verus! {

/// `b` is `a` with, at most, its light of kind `lt` put out.
pub open spec fn darker_block(a: Block, b: Block, lt: LightType) -> bool {
    &&& b.id == a.id
    &&& b.properties == a.properties
    &&& (forall|o: LightType| o != lt ==> b.light_of(o) == a.light_of(o))
    &&& (b.light_of(lt) == a.light_of(lt) || b.light_of(lt) == 0)
}

/// `b` holds the same chunks as `a`, well formed, with blocks that differ at
/// most by light of kind `lt` put out.
pub open spec fn universe_darker(a: Universe, b: Universe, lt: LightType) -> bool {
    &&& a.chunks@.dom() == b.chunks@.dom()
    &&& forall|k: u128|
        #[trigger] b.chunks@.contains_key(k) ==> b.chunks@[k].wf() && forall|i: int|
            0 <= i < CHUNK_VOLUME ==> darker_block(
                a.chunks@[k].blocks@[i],
                #[trigger] b.chunks@[k].blocks@[i],
                lt,
            )
}

/// Every block of the universe has a blueprint.
pub open spec fn ids_known(u: Universe, bp: Blueprints) -> bool {
    forall|k: u128, i: int|
        #![trigger u.chunks@[k].blocks@[i]]
        u.chunks@.contains_key(k) && 0 <= i < CHUNK_VOLUME ==> (u.chunks@[k].blocks@[i].id as int)
            < bp.blocks@.len()
}

proof fn lemma_darker_refl(u: Universe, lt: LightType)
    requires
        u.wf(),
    ensures
        universe_darker(u, u, lt),
{
}

proof fn lemma_darker_trans(a: Universe, b: Universe, c: Universe, lt: LightType)
    requires
        universe_darker(a, b, lt),
        universe_darker(b, c, lt),
    ensures
        universe_darker(a, c, lt),
{
    assert forall|k: u128| #[trigger] c.chunks@.contains_key(k) implies c.chunks@[k].wf() && forall|i: int|
        0 <= i < CHUNK_VOLUME ==> darker_block(
            a.chunks@[k].blocks@[i],
            #[trigger] c.chunks@[k].blocks@[i],
            lt,
        ) by {
        assert(b.chunks@.contains_key(k));
        assert forall|i: int| 0 <= i < CHUNK_VOLUME implies darker_block(
            a.chunks@[k].blocks@[i],
            #[trigger] c.chunks@[k].blocks@[i],
            lt,
        ) by {
            assert(darker_block(a.chunks@[k].blocks@[i], b.chunks@[k].blocks@[i], lt));
            assert(darker_block(b.chunks@[k].blocks@[i], c.chunks@[k].blocks@[i], lt));
        }
    }
}

/// Overwriting one block with a darker copy of itself darkens the universe.
proof fn lemma_darker_write(a: Universe, b: Universe, pos: IVec3, blk: Block, lt: LightType)
    requires
        a.wf(),
        b.wf(),
        a.block_at(pos).is_some(),
        darker_block(a.block_at(pos).unwrap(), blk, lt),
        b.chunks@.dom() == a.chunks@.dom(),
        b.chunks@[pos_key(chunk_origin(pos))].blocks@ == a.chunks@[pos_key(
            chunk_origin(pos),
        )].blocks@.update(index_of(inner_pos(pos)), blk),
        forall|k: u128|
            k != pos_key(chunk_origin(pos)) && a.chunks@.contains_key(k) ==> b.chunks@[k]
                == a.chunks@[k],
    ensures
        universe_darker(a, b, lt),
{
    let key = pos_key(chunk_origin(pos));
    assert forall|k: u128| #[trigger] b.chunks@.contains_key(k) implies b.chunks@[k].wf() && forall|i: int|
        0 <= i < CHUNK_VOLUME ==> darker_block(
            a.chunks@[k].blocks@[i],
            #[trigger] b.chunks@[k].blocks@[i],
            lt,
        ) by {
        if k == key {
            assert forall|i: int| 0 <= i < CHUNK_VOLUME implies darker_block(
                a.chunks@[k].blocks@[i],
                #[trigger] b.chunks@[k].blocks@[i],
                lt,
            ) by {
                if i != index_of(inner_pos(pos)) {
                    assert(b.chunks@[k].blocks@[i] == a.chunks@[k].blocks@[i]);
                }
            }
        } else {
            assert(b.chunks@[k] == a.chunks@[k]);
        }
    }
}

/// A universe is darker than itself.
pub proof fn lemma_darker_refl_pub(u: Universe, lt: LightType)
    requires
        u.wf(),
    ensures
        universe_darker(u, u, lt),
{
}

/// Darkening twice is darkening.
pub proof fn lemma_darker_trans_pub(a: Universe, b: Universe, c: Universe, lt: LightType)
    requires
        universe_darker(a, b, lt),
        universe_darker(b, c, lt),
    ensures
        universe_darker(a, c, lt),
{
    lemma_darker_trans(a, b, c, lt);
}

/// Light of kind `lt` at `p`, none where no chunk is loaded.
pub open spec fn light_or_zero(u: Universe, p: IVec3, lt: LightType) -> int {
    match u.block_at(p) {
        Some(b) => b.light_of(lt) as int,
        None => 0,
    }
}

/// From `a` to `b`, light of kind `lt` changed only at `source` and at
/// blocks that were lit but dimmer than `val`.
pub open spec fn put_out_only_dimmer(a: Universe, b: Universe, source: IVec3, val: int, lt: LightType) -> bool {
    forall|p: IVec3|
        #[trigger] light_or_zero(b, p, lt) != light_or_zero(a, p, lt) ==> p == source || 0 < light_or_zero(
            a,
            p,
            lt,
        ) < val
}

/// `s` is a light to propagate again after putting out light dimmer than
/// `val`: a block of `a` at least that bright, with its brightness, or a
/// light source among the dimmer lit blocks, with the brightness of its
/// blueprint.
pub open spec fn relight_ok(a: Universe, bp: Blueprints, s: LightSource, val: int, lt: LightType) -> bool {
    match a.block_at(s.pos) {
        Some(b) => {
            ||| s.brightness == b.light_of(lt) && b.light_of(lt) >= val
            ||| s.brightness == bp.blocks@[b.id as int].light_level && 0 < b.light_of(lt) < val
        },
        None => false,
    }
}

/// `s` is a light to propagate again after putting out, from `a` to `f`,
/// light dimmer than `val`: either a block at least that bright, left as it
/// was, with its brightness; or a block whose dimmer light was put out and
/// whose blueprint gives light, with the brightness of its blueprint.
pub open spec fn relit(a: Universe, f: Universe, bp: Blueprints, s: LightSource, val: int, lt: LightType) -> bool {
    match a.block_at(s.pos) {
        Some(b) => {
            ||| s.brightness == b.light_of(lt) && b.light_of(lt) >= val && light_or_zero(f, s.pos, lt)
                == b.light_of(lt)
            ||| s.brightness == bp.blocks@[b.id as int].light_level && bp.blocks@[b.id as int].light_level > 0
                && 0 < b.light_of(lt) < val && f.block_at(s.pos) is Some && light_or_zero(f, s.pos, lt) == 0
        },
        None => false,
    }
}

proof fn lemma_darker_point(a: Universe, b: Universe, lt: LightType, p: IVec3)
    requires
        universe_darker(a, b, lt),
    ensures
        a.block_at(p).is_some() == b.block_at(p).is_some(),
        a.block_at(p).is_some() ==> darker_block(a.block_at(p).unwrap(), b.block_at(p).unwrap(), lt),
{
    let k = pos_key(chunk_origin(p));
    if b.chunks@.contains_key(k) {
        crate::chunk::lemma_index_of_pos(inner_pos(p));
        crate::universe::lemma_inner_in_chunk(p);
        let i = index_of(inner_pos(p));
        assert(darker_block(a.chunks@[k].blocks@[i], b.chunks@[k].blocks@[i], lt));
    }
}

/// Manhattan distance between two points.
pub open spec fn manhattan(p: IVec3, q: IVec3) -> int {
    (vstd::math::abs(p.x - q.x) + vstd::math::abs(p.y - q.y) + vstd::math::abs(p.z - q.z)) as int
}

/// The block at `p` is lit with light of kind `lt`, but more dimly than `val`.
pub open spec fn dim_at(u: Universe, p: IVec3, val: int, lt: LightType) -> bool {
    0 < light_or_zero(u, p, lt) < val
}

/// From `a` to `b`, darkness has spread around `source` as far as it could:
/// each neighbour of `source`, or of a block whose light changed, that `a`
/// lit more dimly than `source` is dark in `b`.
pub open spec fn darkness_closed(a: Universe, b: Universe, source: IVec3, lt: LightType) -> bool {
    forall|q: IVec3, d: int|
        #![trigger dim_at(a, step(q, d), light_or_zero(a, source, lt), lt)]
        0 <= d < 6 && (q == source || light_or_zero(b, q, lt) != light_or_zero(a, q, lt)) && dim_at(
            a,
            step(q, d),
            light_or_zero(a, source, lt),
            lt,
        ) ==> light_or_zero(b, step(q, d), lt) == 0
}

/// `r` holds every block that `a` lit more dimly than `source` and that lies
/// next to `source` or next to a block of `r`: darkness spreading from
/// `source` through dimmer blocks never leaves `r`.
pub open spec fn dim_closed(a: Universe, source: IVec3, lt: LightType, r: Set<IVec3>) -> bool {
    forall|q: IVec3, d: int|
        #![trigger r.contains(step(q, d))]
        (q == source || r.contains(q)) && 0 <= d < 6 && dim_at(a, step(q, d), light_or_zero(a, source, lt), lt)
            ==> r.contains(step(q, d))
}

/// From `a` to `b`, darkness has spread around `source` as far as it could,
/// or else it reached at least `MAX_DARKNESS_PROPAGATION - 1` blocks lit more
/// dimly than `source`, so that the bound on the rounds may have cut it short.
pub open spec fn darkness_complete(a: Universe, b: Universe, source: IVec3, lt: LightType) -> bool {
    ||| darkness_closed(a, b, source, lt)
    ||| exists|s: Set<IVec3>|
        #![trigger s.finite()]
        s.finite() && s.len() + 1 >= MAX_DARKNESS_PROPAGATION && forall|r: Set<IVec3>| #[trigger]
            dim_closed(a, source, lt, r) ==> s.subset_of(r)
}

/// Puts out the light of kind `lt` at `source` and, breadth first, at every
/// block around it lit by it (lit, but dimmer than the source was), and
/// returns the lights to propagate again: light sources met among the put
/// out blocks, with their own brightness, and the neighbours of put out blocks
/// at least as bright as the source was, with their brightness.
#[verifier::spinoff_prover]
#[verifier::rlimit(60)]
pub fn propagate_darkness(universe: &mut Universe, bp: &Blueprints, source: IVec3, lt: LightType) -> (r: Vec<LightSource>)
    requires
        old(universe).wf(),
        bp.wf(),
        ids_known(*old(universe), *bp),
        i32::MIN + MAX_DARKNESS_PROPAGATION + 1 < source.x < i32::MAX - MAX_DARKNESS_PROPAGATION - 1,
        i32::MIN + MAX_DARKNESS_PROPAGATION + 1 < source.y < i32::MAX - MAX_DARKNESS_PROPAGATION - 1,
        i32::MIN + MAX_DARKNESS_PROPAGATION + 1 < source.z < i32::MAX - MAX_DARKNESS_PROPAGATION - 1,
    ensures
        final(universe).wf(),
        universe_darker(*old(universe), *final(universe), lt),
        final(universe).block_at(source) matches Some(b) ==> b.light_of(lt) == 0,
        forall|i: int| 0 <= i < r@.len() ==> #[trigger] r@[i].brightness <= 15,
        put_out_only_dimmer(*old(universe), *final(universe), source, light_or_zero(*old(universe), source, lt), lt),
        forall|i: int|
            0 <= i < r@.len() ==> #[trigger] relight_ok(
                *old(universe),
                *bp,
                r@[i],
                light_or_zero(*old(universe), source, lt),
                lt,
            ),
        forall|i: int|
            0 <= i < r@.len() ==> #[trigger] relit(
                *old(universe),
                *final(universe),
                *bp,
                r@[i],
                light_or_zero(*old(universe), source, lt),
                lt,
            ),
        darkness_complete(*old(universe), *final(universe), source, lt),
{
    let ghost u0 = *universe;
    let val: u8 = match universe.read_chunk(&source) {
        Some(voxel) => {
            let v = voxel.get_light(lt);
            let mut dark = voxel;
            dark.set_light(lt, 0);
            let ghost before = *universe;
            universe.set_chunk_block(&source, dark);
            proof {
                lemma_darker_write(before, *universe, source, dark, lt);
                assert forall|p: IVec3|
                    #[trigger] light_or_zero(*universe, p, lt) != light_or_zero(before, p, lt) implies p == source
                    || 0 < light_or_zero(before, p, lt) < v by {
                    if p != source {
                        crate::universe::law_write_then_read(before, *universe, source, dark, p);
                    }
                }
            }
            v
        },
        None => {
            proof {
                lemma_darker_refl(*universe, lt);
            }
            0
        },
    };
    proof {
        assert(val == light_or_zero(u0, source, lt));
    }
    proof {
        assert(universe.block_at(source) matches Some(b) ==> b.light_of(lt) == 0);
    }
    let ghost u_src = *universe;
    let mut new_lights: Vec<LightSource> = Vec::new();
    let mut frontier: VecDeque<IVec3> = VecDeque::new();
    frontier.push_back(source);
    let ghost mut pushed: Set<IVec3> = Set::empty();
    let ghost mut popped: Set<IVec3> = Set::empty();
    proof {
        assert(frontier@[0] == source);
    }
    let mut iter: usize = 0;
    while iter < MAX_DARKNESS_PROPAGATION
        invariant
            universe.wf(),
            bp.wf(),
            ids_known(*universe, *bp),
            universe_darker(u0, *universe, lt),
            universe_darker(u_src, *universe, lt),
            u_src.block_at(source) matches Some(b) ==> b.light_of(lt) == 0,
            iter <= MAX_DARKNESS_PROPAGATION,
            i32::MIN + MAX_DARKNESS_PROPAGATION + 1 < source.x < i32::MAX - MAX_DARKNESS_PROPAGATION - 1,
            i32::MIN + MAX_DARKNESS_PROPAGATION + 1 < source.y < i32::MAX - MAX_DARKNESS_PROPAGATION - 1,
            i32::MIN + MAX_DARKNESS_PROPAGATION + 1 < source.z < i32::MAX - MAX_DARKNESS_PROPAGATION - 1,
            forall|i: int| 0 <= i < frontier@.len() ==> manhattan(#[trigger] frontier@[i], source) <= iter,
            forall|i: int| 0 <= i < new_lights@.len() ==> #[trigger] new_lights@[i].brightness <= 15,
            val == light_or_zero(u0, source, lt),
            put_out_only_dimmer(u0, *universe, source, val as int, lt),
            val == 0 ==> forall|i: int| 0 <= i < frontier@.len() ==> #[trigger] frontier@[i] == source,
            forall|i: int| 0 <= i < new_lights@.len() ==> #[trigger] relight_ok(u0, *bp, new_lights@[i], val as int, lt),
            forall|i: int|
                0 <= i < new_lights@.len() ==> #[trigger] relit(u0, *universe, *bp, new_lights@[i], val as int, lt),
            pushed.finite(),
            frontier@.len() + iter == 1 + pushed.len(),
            forall|p: IVec3|
                #[trigger] pushed.contains(p) ==> p != source && dim_at(u0, p, val as int, lt) && light_or_zero(
                    *universe,
                    p,
                    lt,
                ) == 0,
            forall|p: IVec3|
                p != source && #[trigger] light_or_zero(*universe, p, lt) != light_or_zero(u0, p, lt)
                    ==> pushed.contains(p),
            forall|p: IVec3| #[trigger] pushed.contains(p) ==> popped.contains(p) || frontier@.contains(p),
            popped.contains(source) || frontier@.contains(source),
            forall|i: int|
                0 <= i < frontier@.len() ==> #[trigger] frontier@[i] == source || pushed.contains(frontier@[i]),
            forall|r: Set<IVec3>| #[trigger] dim_closed(u0, source, lt, r) ==> pushed.subset_of(r),
            forall|q: IVec3, e: int|
                #![trigger popped.contains(q), step(q, e)]
                popped.contains(q) && 0 <= e < 6 && dim_at(u0, step(q, e), val as int, lt) ==> light_or_zero(
                    *universe,
                    step(q, e),
                    lt,
                ) == 0,
        ensures
            iter == MAX_DARKNESS_PROPAGATION || frontier@.len() == 0,
        decreases MAX_DARKNESS_PROPAGATION - iter,
    {
        let ghost f_before = frontier@;
        let pos = match frontier.pop_front() {
            Some(p) => p,
            None => {
                break;
            },
        };
        proof {
            assert(f_before[0] == pos);
            assert(manhattan(pos, source) <= iter);
            assert(val == 0 ==> pos == source);
            assert forall|i: int| 0 <= i < frontier@.len() implies #[trigger] frontier@[i] == source
                || pushed.contains(frontier@[i]) by {
                assert(frontier@[i] == f_before[i + 1]);
            }
            assert forall|p: IVec3| #[trigger]
                pushed.contains(p) implies popped.contains(p) || p == pos || frontier@.contains(p) by {
                if !popped.contains(p) {
                    let j = choose|j: int| 0 <= j < f_before.len() && f_before[j] == p;
                    if j > 0 {
                        assert(frontier@[j - 1] == p);
                    }
                }
            }
            if !popped.contains(source) {
                let j = choose|j: int| 0 <= j < f_before.len() && f_before[j] == source;
                if j > 0 {
                    assert(frontier@[j - 1] == source);
                }
            }
        }
        let mut d: usize = 0;
        while d < 6
            invariant
                d <= 6,
                universe.wf(),
                bp.wf(),
                ids_known(*universe, *bp),
                universe_darker(u0, *universe, lt),
                universe_darker(u_src, *universe, lt),
                manhattan(pos, source) <= iter,
                iter < MAX_DARKNESS_PROPAGATION,
                i32::MIN + MAX_DARKNESS_PROPAGATION + 1 < source.x < i32::MAX - MAX_DARKNESS_PROPAGATION - 1,
                i32::MIN + MAX_DARKNESS_PROPAGATION + 1 < source.y < i32::MAX - MAX_DARKNESS_PROPAGATION - 1,
                i32::MIN + MAX_DARKNESS_PROPAGATION + 1 < source.z < i32::MAX - MAX_DARKNESS_PROPAGATION - 1,
                forall|i: int| 0 <= i < frontier@.len() ==> manhattan(#[trigger] frontier@[i], source) <= iter + 1,
                forall|i: int| 0 <= i < new_lights@.len() ==> #[trigger] new_lights@[i].brightness <= 15,
                val == light_or_zero(u0, source, lt),
                put_out_only_dimmer(u0, *universe, source, val as int, lt),
                val == 0 ==> pos == source,
                val == 0 ==> forall|i: int| 0 <= i < frontier@.len() ==> #[trigger] frontier@[i] == source,
                forall|i: int| 0 <= i < new_lights@.len() ==> #[trigger] relight_ok(u0, *bp, new_lights@[i], val as int, lt),
                forall|i: int|
                    0 <= i < new_lights@.len() ==> #[trigger] relit(u0, *universe, *bp, new_lights@[i], val as int, lt),
                pushed.finite(),
                frontier@.len() + iter == pushed.len(),
                forall|p: IVec3|
                    #[trigger] pushed.contains(p) ==> p != source && dim_at(u0, p, val as int, lt) && light_or_zero(
                        *universe,
                        p,
                        lt,
                    ) == 0,
                forall|p: IVec3|
                    p != source && #[trigger] light_or_zero(*universe, p, lt) != light_or_zero(u0, p, lt)
                        ==> pushed.contains(p),
                forall|p: IVec3|
                    #[trigger] pushed.contains(p) ==> popped.contains(p) || p == pos || frontier@.contains(p),
                popped.contains(source) || pos == source || frontier@.contains(source),
                pos == source || pushed.contains(pos),
                forall|i: int|
                    0 <= i < frontier@.len() ==> #[trigger] frontier@[i] == source || pushed.contains(frontier@[i]),
                forall|r: Set<IVec3>| #[trigger] dim_closed(u0, source, lt, r) ==> pushed.subset_of(r),
                forall|q: IVec3, e: int|
                    #![trigger popped.contains(q), step(q, e)]
                    popped.contains(q) && 0 <= e < 6 && dim_at(u0, step(q, e), val as int, lt) ==> light_or_zero(
                        *universe,
                        step(q, e),
                        lt,
                    ) == 0,
                forall|e: int|
                    #![trigger step(pos, e)]
                    0 <= e < d && dim_at(u0, step(pos, e), val as int, lt) ==> light_or_zero(
                        *universe,
                        step(pos, e),
                        lt,
                    ) == 0,
            decreases 6 - d,
        {
            let ghost nl_pre = new_lights@;
            let ghost u_pre = *universe;
            let dv = dir(d);
            let target = pos.add(&dv);
            proof {
                assert(manhattan(target, source) <= iter + 1);
                assert(target == step(pos, d as int));
            }
            let mut unlit: Option<Block> = None;
            proof {
                assert(target != pos);
                lemma_darker_point(u0, *universe, lt, target);
            }
            match universe.read_chunk(&target) {
                Some(neighbor) => {
                    let target_light = neighbor.get_light(lt);
                    proof {
                        let b0 = u0.block_at(target).unwrap();
                        assert(darker_block(b0, neighbor, lt));
                        if target_light == 0 && val == 0 {
                            assert(light_or_zero(*universe, target, lt) == 0);
                            assert(light_or_zero(u0, target, lt) == b0.light_of(lt));
                        }
                        assert(target_light != 0 || val == 0 ==> target_light == b0.light_of(lt));
                    }
                    if target_light != 0 && target_light < val {
                        let mut l = neighbor;
                        l.set_light(lt, 0);
                        unlit = Some(l);
                        proof {
                            let k = pos_key(chunk_origin(target));
                            let i = index_of(inner_pos(target));
                            crate::chunk::lemma_index_of_pos(inner_pos(target));
                            assert(universe.chunks@[k].blocks@[i] == neighbor);
                        }
                        let target_bp = bp.get(neighbor.id);
                        if target_bp.is_light_source() {
                            proof {
                                assert(bp.blocks@[neighbor.id as int].wf());
                            }
                            new_lights.push(LightSource { pos: target, brightness: target_bp.light_level });
                        }
                    } else if target_light >= val {
                        new_lights.push(LightSource { pos: target, brightness: target_light });
                    }
                },
                None => {},
            }
            match unlit {
                Some(voxel) => {
                    let ghost before = *universe;
                    universe.set_chunk_block(&target, voxel);
                    proof {
                        assert forall|p: IVec3|
                            #[trigger] light_or_zero(*universe, p, lt) != light_or_zero(u0, p, lt) implies p == source
                            || 0 < light_or_zero(u0, p, lt) < val by {
                            if p != target {
                                crate::universe::law_write_then_read(before, *universe, target, voxel, p);
                                assert(light_or_zero(*universe, p, lt) == light_or_zero(before, p, lt));
                            }
                        }
                        lemma_darker_write(before, *universe, target, voxel, lt);
                        assert forall|i: int| 0 <= i < new_lights@.len() implies #[trigger] relit(
                            u0,
                            *universe,
                            *bp,
                            new_lights@[i],
                            val as int,
                            lt,
                        ) by {
                            let e = new_lights@[i];
                            crate::universe::law_write_then_read(before, *universe, target, voxel, e.pos);
                            if i < nl_pre.len() {
                                assert(e == nl_pre[i]);
                                assert(relit(u0, u_pre, *bp, e, val as int, lt));
                            }
                        }
                        lemma_darker_trans(u0, before, *universe, lt);
                        lemma_darker_trans(u_src, before, *universe, lt);
                        assert forall|p: IVec3|
                            #![trigger light_or_zero(*universe, p, lt)]
                            light_or_zero(*universe, p, lt) == (if p == target {
                                0
                            } else {
                                light_or_zero(before, p, lt)
                            }) by {
                            crate::universe::law_write_then_read(before, *universe, target, voxel, p);
                        }
                        assert(!pushed.contains(target));
                        assert(dim_at(u0, target, val as int, lt));
                        let ghost old_pushed = pushed;
                        pushed = pushed.insert(target);
                        assert forall|r: Set<IVec3>| #[trigger] dim_closed(u0, source, lt, r) implies pushed.subset_of(
                            r,
                        ) by {
                            assert(old_pushed.subset_of(r));
                            assert(pos == source || r.contains(pos));
                            assert(r.contains(step(pos, d as int)));
                        }
                        assert forall|p: IVec3|
                            p != source && #[trigger] light_or_zero(*universe, p, lt) != light_or_zero(u0, p, lt)
                                implies pushed.contains(p) by {
                            if p != target {
                                assert(light_or_zero(*universe, p, lt) == light_or_zero(before, p, lt));
                            }
                        }
                        assert forall|k: u128, i: int|
                            #![trigger universe.chunks@[k].blocks@[i]]
                            universe.chunks@.contains_key(k) && 0 <= i < CHUNK_VOLUME implies (
                            universe.chunks@[k].blocks@[i].id as int) < bp.blocks@.len() by {
                            assert(before.chunks@.contains_key(k));
                            assert(darker_block(before.chunks@[k].blocks@[i], universe.chunks@[k].blocks@[i], lt));
                        }
                    }
                    let ghost f_mid = frontier@;
                    frontier.push_back(target);
                    proof {
                        assert(frontier@[f_mid.len() as int] == target);
                        assert forall|i: int| 0 <= i < frontier@.len() implies #[trigger] frontier@[i] == source
                            || pushed.contains(frontier@[i]) by {
                            if i < f_mid.len() {
                                assert(frontier@[i] == f_mid[i]);
                            }
                        }
                        assert forall|p: IVec3| #[trigger]
                            pushed.contains(p) implies popped.contains(p) || p == pos || frontier@.contains(p) by {
                            if p != target && !popped.contains(p) && p != pos {
                                let j = choose|j: int| 0 <= j < f_mid.len() && f_mid[j] == p;
                                assert(frontier@[j] == p);
                            }
                        }
                        if !popped.contains(source) && pos != source {
                            let j = choose|j: int| 0 <= j < f_mid.len() && f_mid[j] == source;
                            assert(frontier@[j] == source);
                        }
                    }
                },
                None => {
                    proof {
                        assert forall|i: int| 0 <= i < new_lights@.len() implies #[trigger] relit(
                            u0,
                            *universe,
                            *bp,
                            new_lights@[i],
                            val as int,
                            lt,
                        ) by {
                            if i < nl_pre.len() {
                                assert(new_lights@[i] == nl_pre[i]);
                            }
                        }
                    }
                },
            }
            d = d + 1;
        }
        proof {
            popped = popped.insert(pos);
        }
        iter = iter + 1;
    }
    proof {
        let o = chunk_origin(source);
        if u_src.block_at(source) is Some {
            let k = pos_key(o);
            let i = index_of(inner_pos(source));
            crate::chunk::lemma_index_of_pos(inner_pos(source));
            assert(darker_block(u_src.chunks@[k].blocks@[i], universe.chunks@[k].blocks@[i], lt));
        }
        if frontier@.len() == 0 {
            assert forall|q: IVec3, e: int|
                0 <= e < 6 && (q == source || light_or_zero(*universe, q, lt) != light_or_zero(u0, q, lt)) && dim_at(
                    u0,
                    step(q, e),
                    light_or_zero(u0, source, lt),
                    lt,
                ) implies #[trigger] light_or_zero(*universe, step(q, e), lt) == 0 by {
                if q != source {
                    assert(pushed.contains(q));
                }
                assert(popped.contains(q));
            }
            assert(darkness_closed(u0, *universe, source, lt));
        } else {
            assert(pushed.finite() && pushed.len() + 1 >= MAX_DARKNESS_PROPAGATION && forall|r: Set<IVec3>|
                #[trigger] dim_closed(u0, source, lt, r) ==> pushed.subset_of(r));
        }
    }
    new_lights
}

/// Along a path of neighbouring blocks from `source`, each lit in `a` more
/// dimly than `source`, the step that reaches `path[n]` starts at `source` or
/// at a block whose light changed, so the closed spread puts `path[n]` out.
proof fn lemma_path_put_out(a: Universe, b: Universe, source: IVec3, lt: LightType, path: Seq<IVec3>, dirs: Seq<int>, n: int)
    requires
        darkness_closed(a, b, source, lt),
        path.len() == dirs.len() + 1,
        path[0] == source,
        forall|i: int| 0 <= i < dirs.len() ==> 0 <= #[trigger] dirs[i] < 6 && path[i + 1] == step(path[i], dirs[i]),
        forall|i: int| 1 <= i < path.len() ==> dim_at(a, #[trigger] path[i], light_or_zero(a, source, lt), lt),
        1 <= n < path.len(),
    ensures
        light_or_zero(b, path[n], lt) == 0,
    decreases n,
{
    if n > 1 {
        lemma_path_put_out(a, b, source, lt, path, dirs, n - 1);
        assert(dim_at(a, path[n - 1], light_or_zero(a, source, lt), lt));
    }
    let e = dirs[n - 1];
    assert(path[n] == step(path[n - 1], e));
    assert(dim_at(a, step(path[n - 1], e), light_or_zero(a, source, lt), lt));
}

/// Putting out light reaches everything the source lit: once darkness has
/// spread from `source` (from `a` to `b`), every block at the end of a path
/// of neighbouring blocks from `source`, each lit in `a` more dimly than
/// `source` was, has no light of kind `lt` left, provided the dimmer blocks
/// that such paths can reach lie in a set `region` of fewer than
/// `MAX_DARKNESS_PROPAGATION - 1` blocks.
pub proof fn law_darkness_puts_out_what_it_reaches(
    a: Universe,
    b: Universe,
    source: IVec3,
    lt: LightType,
    region: Set<IVec3>,
    path: Seq<IVec3>,
    dirs: Seq<int>,
)
    requires
        darkness_complete(a, b, source, lt),
        dim_closed(a, source, lt, region),
        region.finite(),
        region.len() + 1 < MAX_DARKNESS_PROPAGATION,
        path.len() == dirs.len() + 1,
        path[0] == source,
        forall|i: int| 0 <= i < dirs.len() ==> 0 <= #[trigger] dirs[i] < 6 && path[i + 1] == step(path[i], dirs[i]),
        forall|i: int| 1 <= i < path.len() ==> dim_at(a, #[trigger] path[i], light_or_zero(a, source, lt), lt),
    ensures
        forall|i: int| 1 <= i < path.len() ==> light_or_zero(b, #[trigger] path[i], lt) == 0,
{
    if !darkness_closed(a, b, source, lt) {
        let s = choose|s: Set<IVec3>|
            #![trigger s.finite()]
            s.finite() && s.len() + 1 >= MAX_DARKNESS_PROPAGATION && forall|r: Set<IVec3>| #[trigger]
                dim_closed(a, source, lt, r) ==> s.subset_of(r);
        assert(s.subset_of(region));
        vstd::set_lib::lemma_len_subset(s, region);
    }
    assert forall|i: int| 1 <= i < path.len() implies light_or_zero(b, #[trigger] path[i], lt) == 0 by {
        lemma_path_put_out(a, b, source, lt, path, dirs, i);
    }
}

} // verus!
