//! Vertical runs of sunlit blocks, one per column of the world.
use vstd::prelude::*;
use std::collections::HashMap;
use crate::ivec::{plane_key, IVec2, IVec3};
use crate::CHUNK_SIDE;

verus! {

broadcast use vstd::std_specs::hash::group_hash_axioms;

/// Height where sunlight starts, for every column.
pub open spec fn sun_height() -> i32 {
    256
}

/// Height where sunlight starts in the column `xz`.
pub fn get_sun_heightfield(_xz: IVec2) -> (r: i32)
    ensures
        r == sun_height(),
{
    256
}

/// The origins of the twenty-seven chunks around the world origin, `x`
/// varying fastest, then `y`, then `z`.
pub open spec fn spawn_chunk(i: int) -> IVec3 {
    IVec3 {
        x: ((i % 3 - 1) * 32) as i32,
        y: (((i / 3) % 3 - 1) * 32) as i32,
        z: ((i / 9 - 1) * 32) as i32,
    }
}

/// The chunks that are always loaded: the 3x3x3 block of chunks centred on
/// the chunk at the world origin.
pub fn get_spawn_chunks() -> (r: Vec<IVec3>)
    ensures
        r@.len() == 27,
        forall|i: int| 0 <= i < 27 ==> r@[i] == spawn_chunk(i),
{
    let mut r: Vec<IVec3> = Vec::new();
    let mut z: i32 = -1;
    while z <= 1
        invariant
            -1 <= z <= 2,
            r@.len() == (z + 1) * 9,
            forall|i: int| 0 <= i < r@.len() ==> r@[i] == spawn_chunk(i),
        decreases 2 - z,
    {
        let mut y: i32 = -1;
        while y <= 1
            invariant
                -1 <= z <= 1,
                -1 <= y <= 2,
                r@.len() == (z + 1) * 9 + (y + 1) * 3,
                forall|i: int| 0 <= i < r@.len() ==> r@[i] == spawn_chunk(i),
            decreases 2 - y,
        {
            let mut x: i32 = -1;
            while x <= 1
                invariant
                    -1 <= z <= 1,
                    -1 <= y <= 1,
                    -1 <= x <= 2,
                    r@.len() == (z + 1) * 9 + (y + 1) * 3 + (x + 1),
                    forall|i: int| 0 <= i < r@.len() ==> r@[i] == spawn_chunk(i),
                decreases 2 - x,
            {
                let side = CHUNK_SIDE as i32;
                let p = IVec3 { x: x * side, y: y * side, z: z * side };
                proof {
                    let i = r@.len() as int;
                    assert(i % 3 == x + 1 && (i / 3) % 3 == y + 1 && i / 9 == z + 1) by (nonlinear_arith)
                        requires
                            i == (z + 1) * 9 + (y + 1) * 3 + (x + 1),
                            -1 <= x <= 1,
                            -1 <= y <= 1,
                            -1 <= z <= 1,
                    ;
                }
                r.push(p);
                x = x + 1;
            }
            y = y + 1;
        }
        z = z + 1;
    }
    r
}

/// The sunlit run of a column, from `bottom` to `top` inclusive.
#[derive(Debug, Clone, Copy, PartialEq, Eq, Structural)]
pub struct SunBeam {
    pub bottom: i32,
    pub top: i32,
}

impl SunBeam {
    /// Whether height `at` is in the beam.
    pub open spec fn has(self, at: int) -> bool {
        self.bottom <= at <= self.top
    }

    pub fn new(start: i32, end: i32) -> (r: Self)
        ensures
            r.bottom == start,
            r.top == end,
    {
        SunBeam { bottom: start, top: end }
    }

    /// The beam of a column that nothing shades: the single block at the sun
    /// height.
    pub fn new_top(xz: &IVec2) -> (r: Self)
        ensures
            r.bottom == sun_height(),
            r.top == sun_height(),
    {
        let sun_height = get_sun_heightfield(*xz);
        Self::new(sun_height, sun_height)
    }

    /// Extends the beam with an adjacent or overlapping one: the result spans
    /// from the lower bottom to the higher top.
    pub fn extend(&mut self, new_beam: SunBeam)
        requires
            old(self).top < i32::MAX,
            old(self).bottom > i32::MIN,
            old(self).top + 1 >= new_beam.bottom,
            new_beam.top >= old(self).bottom - 1,
        ensures
            final(self).bottom == if old(self).bottom <= new_beam.bottom {
                old(self).bottom
            } else {
                new_beam.bottom
            },
            final(self).top == if old(self).top >= new_beam.top {
                old(self).top
            } else {
                new_beam.top
            },
    {
        if new_beam.bottom < self.bottom {
            self.bottom = new_beam.bottom;
        }
        if new_beam.top > self.top {
            self.top = new_beam.top;
        }
    }

    /// If `at` is inside the beam, returns the parts `bottom..=at` and
    /// `at+1..=top`, and the beam keeps the part above `at` (at least its top
    /// block); otherwise returns `None` and leaves the beam as it was.
    pub fn cut(&mut self, at: i32) -> (r: Option<(SunBeam, SunBeam)>)
        requires
            old(self).has(at as int) ==> at < i32::MAX,
        ensures
            old(self).has(at as int) ==> r == Some(
                (
                    SunBeam { bottom: old(self).bottom, top: at },
                    SunBeam { bottom: (at + 1) as i32, top: old(self).top },
                ),
            ) && final(self).top == old(self).top && final(self).bottom == (if at + 1 <= old(
                self,
            ).top {
                at + 1
            } else {
                old(self).top as int
            }),
            !old(self).has(at as int) ==> r.is_none() && *final(self) == *old(self),
    {
        if self.bottom <= at && at <= self.top {
            let lower = SunBeam::new(self.bottom, at);
            let higher = SunBeam::new(at + 1, self.top);
            self.bottom = if at + 1 <= self.top {
                at + 1
            } else {
                self.top
            };
            Some((lower, higher))
        } else {
            None
        }
    }

    /// Whether height `at` is in the beam.
    pub fn contains(&self, at: &i32) -> (r: bool)
        ensures
            r == self.has(*at as int),
    {
        self.bottom <= *at && *at <= self.top
    }
}

/// Extending a beam with an adjacent or overlapping non-empty beam gives a
/// beam that holds exactly the heights of both.
pub proof fn law_extend_is_union(a: SunBeam, b: SunBeam, ext: SunBeam, h: int)
    requires
        a.bottom <= a.top,
        b.bottom <= b.top,
        a.top + 1 >= b.bottom,
        b.top >= a.bottom - 1,
        ext.bottom == if a.bottom <= b.bottom { a.bottom } else { b.bottom },
        ext.top == if a.top >= b.top { a.top } else { b.top },
    ensures
        ext.has(h) <==> (a.has(h) || b.has(h)),
{
}

/// Cutting a beam at a height inside it splits it into two parts that hold
/// exactly its heights, the lower one up to the cut.
pub proof fn law_cut_partitions(beam: SunBeam, at: int, lower: SunBeam, higher: SunBeam, h: int)
    requires
        beam.has(at),
        lower == (SunBeam { bottom: beam.bottom, top: at as i32 }),
        higher == (SunBeam { bottom: (at + 1) as i32, top: beam.top }),
        at < i32::MAX,
    ensures
        beam.has(h) <==> (lower.has(h) || higher.has(h)),
        !(lower.has(h) && higher.has(h)),
        lower.has(h) ==> h <= at,
        higher.has(h) ==> h > at,
{
}

/// The sun beams of the columns that were touched, keyed by column.
#[derive(Debug)]
pub struct SunBeams {
    pub beams: HashMap<u64, SunBeam>,
}

impl SunBeams {
    /// The beam of column `xz`: the stored one, or the unshaded one.
    pub open spec fn beam_at(&self, xz: IVec2) -> SunBeam {
        if self.beams@.contains_key(plane_key(xz)) {
            self.beams@[plane_key(xz)]
        } else {
            SunBeam { bottom: sun_height(), top: sun_height() }
        }
    }

    pub fn new() -> (r: SunBeams)
        ensures
            r.beams@ == Map::<u64, SunBeam>::empty(),
    {
        SunBeams { beams: HashMap::new() }
    }

    /// The beam of column `xz`, stored first as the unshaded beam if the
    /// column had none.
    pub fn get_at_mut(&mut self, xz: &IVec2) -> (r: &mut SunBeam)
        ensures
            *r == old(self).beam_at(*xz),
            final(self).beams@ == old(self).beams@.insert(plane_key(*xz), *final(r)),
    {
        let default = SunBeam::new_top(xz);
        self.beams.entry(xz.key()).or_insert(default)
    }

    /// The beam of column `xz`, without storing anything.
    pub fn get_at(&self, xz: &IVec2) -> (r: SunBeam)
        ensures
            r == self.beam_at(*xz),
    {
        match self.beams.get(&xz.key()) {
            Some(b) => *b,
            None => SunBeam::new_top(xz),
        }
    }

    /// Extends the beam of column `xz` with `new_beam`.
    pub fn extend_beam(&mut self, xz: &IVec2, new_beam: SunBeam)
        requires
            old(self).beam_at(*xz).top < i32::MAX,
            old(self).beam_at(*xz).bottom > i32::MIN,
            old(self).beam_at(*xz).top + 1 >= new_beam.bottom,
            new_beam.top >= old(self).beam_at(*xz).bottom - 1,
        ensures
            final(self).beams@.dom() == old(self).beams@.dom().insert(plane_key(*xz)),
            forall|c: IVec2| c != *xz ==> #[trigger] final(self).beam_at(c) == old(self).beam_at(c),
            forall|k: u64|
                k != plane_key(*xz) && #[trigger] old(self).beams@.contains_key(k) ==> final(self).beams@[k]
                    == old(self).beams@[k],
            final(self).beam_at(*xz).bottom == if old(self).beam_at(*xz).bottom <= new_beam.bottom {
                old(self).beam_at(*xz).bottom
            } else {
                new_beam.bottom
            },
            final(self).beam_at(*xz).top == if old(self).beam_at(*xz).top >= new_beam.top {
                old(self).beam_at(*xz).top
            } else {
                new_beam.top
            },
    {
        let sun_beam = self.get_at_mut(xz);
        sun_beam.extend(new_beam);
        proof {
            assert forall|c: IVec2| c != *xz implies #[trigger] self.beam_at(c) == old(self).beam_at(c) by {
                if plane_key(c) == plane_key(*xz) {
                    crate::ivec::lemma_plane_key_injective(c, *xz);
                }
            }
        }
    }

    /// Cuts the beam of column `xz` at height `at`, as [`SunBeam::cut`].
    pub fn cut_beam(&mut self, xz: &IVec2, at: i32) -> (r: Option<(SunBeam, SunBeam)>)
        requires
            old(self).beam_at(*xz).has(at as int) ==> at < i32::MAX,
        ensures
            final(self).beams@.dom() == old(self).beams@.dom().insert(plane_key(*xz)),
            forall|c: IVec2| c != *xz ==> #[trigger] final(self).beam_at(c) == old(self).beam_at(c),
            forall|k: u64|
                k != plane_key(*xz) && #[trigger] old(self).beams@.contains_key(k) ==> final(self).beams@[k]
                    == old(self).beams@[k],
            ({
                let b = old(self).beam_at(*xz);
                let n = final(self).beam_at(*xz);
                &&& b.has(at as int) ==> r == Some(
                    (
                        SunBeam { bottom: b.bottom, top: at },
                        SunBeam { bottom: (at + 1) as i32, top: b.top },
                    ),
                ) && n.top == b.top && n.bottom == (if at + 1 <= b.top {
                    at + 1
                } else {
                    b.top as int
                })
                &&& !b.has(at as int) ==> r.is_none() && n == b
            }),
    {
        let sun_beam = self.get_at_mut(xz);
        let r = sun_beam.cut(at);
        proof {
            assert forall|c: IVec2| c != *xz implies #[trigger] self.beam_at(c) == old(self).beam_at(c) by {
                if plane_key(c) == plane_key(*xz) {
                    crate::ivec::lemma_plane_key_injective(c, *xz);
                }
            }
        }
        r
    }
}


/// The beams of `m` with the stored beams `s` added, in order, to the
/// columns that have none yet.
pub open spec fn merged(m: Map<u64, SunBeam>, s: Seq<(IVec2, SunBeam)>) -> Map<u64, SunBeam>
    decreases s.len(),
{
    if s.len() == 0 {
        m
    } else {
        let prev = merged(m, s.drop_last());
        let (xz, b) = s.last();
        if prev.contains_key(plane_key(xz)) {
            prev
        } else {
            prev.insert(plane_key(xz), b)
        }
    }
}

impl SunBeams {
    /// Adds beams read back from storage to the columns that have none yet,
    /// keeping the beams already known.
    pub fn merge_stored(&mut self, stored: &Vec<(IVec2, SunBeam)>)
        ensures
            final(self).beams@ == merged(old(self).beams@, stored@),
            crate::terrain::beams_safe(*old(self)) && (forall|j: int|
                0 <= j < stored@.len() ==> crate::terrain::beam_coord_safe(#[trigger] stored@[j].1.bottom as int)
                    && crate::terrain::beam_coord_safe(stored@[j].1.top as int)) ==> crate::terrain::beams_safe(
                *final(self),
            ),
    {
        let ghost all_safe = crate::terrain::beams_safe(*old(self)) && (forall|j: int|
            0 <= j < stored@.len() ==> crate::terrain::beam_coord_safe(#[trigger] stored@[j].1.bottom as int)
                && crate::terrain::beam_coord_safe(stored@[j].1.top as int));
        let mut i: usize = 0;
        while i < stored.len()
            invariant
                i <= stored@.len(),
                all_safe == (crate::terrain::beams_safe(*old(self)) && (forall|j: int|
                    0 <= j < stored@.len() ==> crate::terrain::beam_coord_safe(#[trigger] stored@[j].1.bottom as int)
                        && crate::terrain::beam_coord_safe(stored@[j].1.top as int))),
                all_safe ==> crate::terrain::beams_safe(*self),
                self.beams@ == merged(old(self).beams@, stored@.subrange(0, i as int)),
            decreases stored.len() - i,
        {
            let (xz, b) = stored[i];
            proof {
                assert(stored@.subrange(0, i + 1).drop_last() =~= stored@.subrange(0, i as int));
            }
            let k = xz.key();
            let ghost before = *self;
            if !self.beams.contains_key(&k) {
                self.beams.insert(k, b);
                proof {
                    if all_safe {
                        assert(stored@[i as int].1 == b);
                        assert forall|kk: u64| #[trigger] self.beams@.contains_key(kk) implies crate::terrain::beam_coord_safe(
                            self.beams@[kk].bottom as int,
                        ) && crate::terrain::beam_coord_safe(self.beams@[kk].top as int) by {
                            if kk != k {
                                assert(before.beams@.contains_key(kk));
                            }
                        }
                    }
                }
            }
            i = i + 1;
        }
        proof {
            assert(stored@.subrange(0, stored@.len() as int) =~= stored@);
        }
    }
}

} // verus!
