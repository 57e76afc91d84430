//! Integer vectors used as block and chunk coordinates.
use vstd::prelude::*;

verus! {

/// A point of the integer grid in three dimensions.
#[derive(Debug, Clone, Copy, PartialEq, Eq, Structural, Hash)]
pub struct IVec3 {
    pub x: i32,
    pub y: i32,
    pub z: i32,
}

/// A point of the integer grid in the horizontal plane (`x`, `z`).
#[derive(Debug, Clone, Copy, PartialEq, Eq, Structural, Hash)]
pub struct IVec2 {
    pub x: i32,
    pub y: i32,
}

/// The column `(x, z)` of a point.
pub open spec fn column_of(p: IVec3) -> IVec2 {
    IVec2 { x: p.x, y: p.z }
}

/// Injective packing of a 3D point in one integer, usable as a map key.
pub open spec fn pos_key(p: IVec3) -> u128 {
    ((p.x as int + 0x8000_0000) * 0x1_0000_0000_0000_0000 + (p.y as int + 0x8000_0000)
        * 0x1_0000_0000 + (p.z as int + 0x8000_0000)) as u128
}

/// Injective packing of a 2D point in one integer, usable as a map key.
pub open spec fn plane_key(p: IVec2) -> u64 {
    ((p.x as int + 0x8000_0000) * 0x1_0000_0000 + (p.y as int + 0x8000_0000)) as u64
}

proof fn lemma_pack3_injective(a1: int, b1: int, c1: int, a2: int, b2: int, c2: int)
    requires
        0 <= a1 < 0x1_0000_0000,
        0 <= b1 < 0x1_0000_0000,
        0 <= c1 < 0x1_0000_0000,
        0 <= a2 < 0x1_0000_0000,
        0 <= b2 < 0x1_0000_0000,
        0 <= c2 < 0x1_0000_0000,
        a1 * 0x1_0000_0000_0000_0000 + b1 * 0x1_0000_0000 + c1 == a2 * 0x1_0000_0000_0000_0000
            + b2 * 0x1_0000_0000 + c2,
    ensures
        a1 == a2 && b1 == b2 && c1 == c2,
{
    let k: int = 0x1_0000_0000;
    assert(0x1_0000_0000_0000_0000 == k * k);
    assert(a1 * (k * k) + b1 * k + c1 == a2 * (k * k) + b2 * k + c2);
    assert(b1 * k + c1 == (b2 + (a2 - a1) * k) * k + c2) by (nonlinear_arith)
        requires
            a1 * (k * k) + b1 * k + c1 == a2 * (k * k) + b2 * k + c2,
    ;
    lemma_pack2_injective(b1, c1, b2 + (a2 - a1) * k, c2);
    assert(a1 == a2 && b1 == b2 && c1 == c2) by (nonlinear_arith)
        requires
            b1 == b2 + (a2 - a1) * k,
            c1 == c2,
            0 <= b1 < k,
            0 <= b2 < k,
            k == 0x1_0000_0000,
    ;
}

proof fn lemma_pack2_injective(b1: int, c1: int, b2: int, c2: int)
    requires
        0 <= c1 < 0x1_0000_0000,
        0 <= c2 < 0x1_0000_0000,
        b1 * 0x1_0000_0000 + c1 == b2 * 0x1_0000_0000 + c2,
    ensures
        b1 == b2 && c1 == c2,
{
    assert(b1 == b2 && c1 == c2) by (nonlinear_arith)
        requires
            0 <= c1 < 0x1_0000_0000,
            0 <= c2 < 0x1_0000_0000,
            b1 * 0x1_0000_0000 + c1 == b2 * 0x1_0000_0000 + c2,
    ;
}

/// Distinct points have distinct keys.
pub proof fn lemma_pos_key_injective(p: IVec3, q: IVec3)
    requires
        pos_key(p) == pos_key(q),
    ensures
        p == q,
{
    let a1 = p.x as int + 0x8000_0000;
    let b1 = p.y as int + 0x8000_0000;
    let c1 = p.z as int + 0x8000_0000;
    let a2 = q.x as int + 0x8000_0000;
    let b2 = q.y as int + 0x8000_0000;
    let c2 = q.z as int + 0x8000_0000;
    lemma_pack_bound(a1, b1, c1);
    lemma_pack_bound(a2, b2, c2);
    lemma_pack3_injective(a1, b1, c1, a2, b2, c2);
}

proof fn lemma_pack_bound(a: int, b: int, c: int)
    requires
        0 <= a < 0x1_0000_0000,
        0 <= b < 0x1_0000_0000,
        0 <= c < 0x1_0000_0000,
    ensures
        0 <= a * 0x1_0000_0000_0000_0000 + b * 0x1_0000_0000 + c < 0x1_0000_0000_0000_0000_0000_0000,
{
    assert(0 <= a * 0x1_0000_0000_0000_0000 + b * 0x1_0000_0000 + c < 0x1_0000_0000_0000_0000_0000_0000)
        by (nonlinear_arith)
        requires
            0 <= a < 0x1_0000_0000,
            0 <= b < 0x1_0000_0000,
            0 <= c < 0x1_0000_0000,
    ;
}

/// Distinct points of the plane have distinct keys.
pub proof fn lemma_plane_key_injective(p: IVec2, q: IVec2)
    requires
        plane_key(p) == plane_key(q),
    ensures
        p == q,
{
    let b1 = p.x as int + 0x8000_0000;
    let c1 = p.y as int + 0x8000_0000;
    let b2 = q.x as int + 0x8000_0000;
    let c2 = q.y as int + 0x8000_0000;
    assert(0 <= b1 * 0x1_0000_0000 + c1 < 0x1_0000_0000_0000_0000) by (nonlinear_arith)
        requires
            0 <= b1 < 0x1_0000_0000,
            0 <= c1 < 0x1_0000_0000,
    ;
    assert(0 <= b2 * 0x1_0000_0000 + c2 < 0x1_0000_0000_0000_0000) by (nonlinear_arith)
        requires
            0 <= b2 < 0x1_0000_0000,
            0 <= c2 < 0x1_0000_0000,
    ;
    lemma_pack2_injective(b1, c1, b2, c2);
}

impl IVec3 {
    pub fn new(x: i32, y: i32, z: i32) -> (r: Self)
        ensures
            r == (IVec3 { x, y, z }),
    {
        IVec3 { x, y, z }
    }

    /// The key of this point in the maps of the library.
    pub fn key(&self) -> (k: u128)
        ensures
            k == pos_key(*self),
    {
        let a = (self.x as i64 + 0x8000_0000i64) as u128;
        let b = (self.y as i64 + 0x8000_0000i64) as u128;
        let c = (self.z as i64 + 0x8000_0000i64) as u128;
        proof {
            lemma_pack_bound(a as int, b as int, c as int);
        }
        a * 0x1_0000_0000_0000_0000u128 + b * 0x1_0000_0000u128 + c
    }

    /// The horizontal projection `(x, z)`.
    pub fn xz(&self) -> (r: IVec2)
        ensures
            r == column_of(*self),
    {
        IVec2 { x: self.x, y: self.z }
    }

    /// Component-wise sum; the components must not overflow.
    pub fn add(&self, o: &IVec3) -> (r: IVec3)
        requires
            i32::MIN <= self.x + o.x <= i32::MAX,
            i32::MIN <= self.y + o.y <= i32::MAX,
            i32::MIN <= self.z + o.z <= i32::MAX,
        ensures
            r.x == self.x + o.x,
            r.y == self.y + o.y,
            r.z == self.z + o.z,
    {
        IVec3 { x: self.x + o.x, y: self.y + o.y, z: self.z + o.z }
    }
}

impl IVec2 {
    pub fn new(x: i32, y: i32) -> (r: Self)
        ensures
            r == (IVec2 { x, y }),
    {
        IVec2 { x, y }
    }

    /// The key of this point in the maps of the library.
    pub fn key(&self) -> (k: u64)
        ensures
            k == plane_key(*self),
    {
        let b = (self.x as i64 + 0x8000_0000i64) as u64;
        let c = (self.y as i64 + 0x8000_0000i64) as u64;
        proof {
            assert(0 <= b * 0x1_0000_0000 + c < 0x1_0000_0000_0000_0000) by (nonlinear_arith)
                requires
                    0 <= b < 0x1_0000_0000,
                    0 <= c < 0x1_0000_0000,
            ;
        }
        b * 0x1_0000_0000u64 + c
    }
}

} // verus!

verus! {

/// The point whose key is `k`.
pub open spec fn key_pos(k: u128) -> IVec3 {
    IVec3 {
        x: (k as int / 0x1_0000_0000_0000_0000 - 0x8000_0000) as i32,
        y: ((k as int / 0x1_0000_0000) % 0x1_0000_0000 - 0x8000_0000) as i32,
        z: (k as int % 0x1_0000_0000 - 0x8000_0000) as i32,
    }
}

/// Decoding the key of a point gives the point back.
pub proof fn lemma_key_pos_inverse(p: IVec3)
    ensures
        key_pos(pos_key(p)) == p,
        (pos_key(p) as int) < 0x1_0000_0000_0000_0000_0000_0000,
{
    let a = p.x as int + 0x8000_0000;
    let b = p.y as int + 0x8000_0000;
    let c = p.z as int + 0x8000_0000;
    lemma_pack_bound(a, b, c);
    let k = a * 0x1_0000_0000_0000_0000 + b * 0x1_0000_0000 + c;
    assert(k / 0x1_0000_0000_0000_0000 == a && (k / 0x1_0000_0000) % 0x1_0000_0000 == b && k
        % 0x1_0000_0000 == c) by (nonlinear_arith)
        requires
            k == a * 0x1_0000_0000_0000_0000 + b * 0x1_0000_0000 + c,
            0 <= a < 0x1_0000_0000,
            0 <= b < 0x1_0000_0000,
            0 <= c < 0x1_0000_0000,
    ;
}

impl IVec3 {
    /// The point whose key is `k`, for a key made by [`IVec3::key`].
    pub fn from_key(k: u128) -> (r: IVec3)
        requires
            (k as int) < 0x1_0000_0000_0000_0000_0000_0000,
        ensures
            r == key_pos(k),
    {
        let a = (k / 0x1_0000_0000_0000_0000u128) as i64 - 0x8000_0000i64;
        let b = ((k / 0x1_0000_0000u128) % 0x1_0000_0000u128) as i64 - 0x8000_0000i64;
        let c = (k % 0x1_0000_0000u128) as i64 - 0x8000_0000i64;
        IVec3 { x: a as i32, y: b as i32, z: c as i32 }
    }
}

} // verus!

verus! {

/// The point of the plane whose key is `k`.
pub open spec fn plane_pos(k: u64) -> IVec2 {
    IVec2 { x: (k as int / 0x1_0000_0000 - 0x8000_0000) as i32, y: (k as int % 0x1_0000_0000 - 0x8000_0000) as i32 }
}

/// Every key of the plane is the key of the point it decodes to.
pub proof fn lemma_plane_pos_inverse(k: u64)
    ensures
        plane_key(plane_pos(k)) == k,
{
    let a = k as int / 0x1_0000_0000;
    let b = k as int % 0x1_0000_0000;
    assert(0 <= a < 0x1_0000_0000 && 0 <= b < 0x1_0000_0000 && k == a * 0x1_0000_0000 + b) by (nonlinear_arith)
        requires
            a == k as int / 0x1_0000_0000,
            b == k as int % 0x1_0000_0000,
            0 <= k < 0x1_0000_0000_0000_0000,
    ;
}

impl IVec2 {
    /// The point of the plane whose key is `k`.
    pub fn from_key(k: u64) -> (r: IVec2)
        ensures
            r == plane_pos(k),
            plane_key(r) == k,
    {
        proof {
            lemma_plane_pos_inverse(k);
        }
        let a = (k / 0x1_0000_0000u64) as i64 - 0x8000_0000i64;
        let b = (k % 0x1_0000_0000u64) as i64 - 0x8000_0000i64;
        IVec2 { x: a as i32, y: b as i32 }
    }
}

} // verus!

verus! {

/// Every key below `2^96` is the key of the point it decodes to.
pub proof fn lemma_pos_key_of_key_pos(k: u128)
    requires
        (k as int) < 0x1_0000_0000_0000_0000_0000_0000,
    ensures
        pos_key(key_pos(k)) == k,
{
    let a = k as int / 0x1_0000_0000_0000_0000;
    let b = (k as int / 0x1_0000_0000) % 0x1_0000_0000;
    let c = k as int % 0x1_0000_0000;
    assert(0 <= a < 0x1_0000_0000 && 0 <= b < 0x1_0000_0000 && 0 <= c < 0x1_0000_0000 && k
        == a * 0x1_0000_0000_0000_0000 + b * 0x1_0000_0000 + c) by (nonlinear_arith)
        requires
            a == k as int / 0x1_0000_0000_0000_0000,
            b == (k as int / 0x1_0000_0000) % 0x1_0000_0000,
            c == k as int % 0x1_0000_0000,
            0 <= k < 0x1_0000_0000_0000_0000_0000_0000,
    ;
}

} // verus!
