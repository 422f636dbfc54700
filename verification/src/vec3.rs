use vstd::prelude::*;

use crate::error::WkwError;

verus! {

/// The power of two as a mathematical integer.
pub open spec fn pow2i(s: nat) -> int {
    vstd::arithmetic::power2::pow2(s) as int
}

/// An unsigned integer 3-vector of voxel or block coordinates.
#[derive(Clone, Copy, Debug, PartialEq, Eq, Structural)]
pub struct Vec3 {
    pub x: u32,
    pub y: u32,
    pub z: u32,
}

impl Vec3 {
    /// All three components compare `<=` against `o`.
    pub open spec fn all_le(self, o: Vec3) -> bool {
        self.x <= o.x && self.y <= o.y && self.z <= o.z
    }

    /// All three components compare `<` against `o`.
    pub open spec fn all_lt(self, o: Vec3) -> bool {
        self.x < o.x && self.y < o.y && self.z < o.z
    }

    /// Number of cells in a cuboid of this shape, as a mathematical integer.
    pub open spec fn spec_product(self) -> int {
        self.x * self.y * self.z
    }

    pub fn splat(s: u32) -> (r: Vec3)
        ensures
            r == (Vec3 { x: s, y: s, z: s }),
    {
        Vec3 { x: s, y: s, z: s }
    }

    pub fn is_zero(&self) -> (r: bool)
        ensures
            r == (self.x == 0 && self.y == 0 && self.z == 0),
    {
        self.x == 0 && self.y == 0 && self.z == 0
    }

    pub fn product(&self) -> (r: u64)
        requires
            self.spec_product() <= u64::MAX,
        ensures
            r == self.spec_product(),
    {
        proof {
            assert(self.x as int * self.y as int <= 0xffff_ffff * 0xffff_ffff)
                by (nonlinear_arith)
                requires self.x <= 0xffff_ffffu32 && self.y <= 0xffff_ffffu32;
        }
        let xy: u64 = self.x as u64 * self.y as u64;
        xy * self.z as u64
    }

    pub fn elem_max(&self, other: Vec3) -> (r: Vec3)
        ensures
            r.x == if self.x >= other.x { self.x } else { other.x },
            r.y == if self.y >= other.y { self.y } else { other.y },
            r.z == if self.z >= other.z { self.z } else { other.z },
    {
        Vec3 {
            x: if self.x >= other.x { self.x } else { other.x },
            y: if self.y >= other.y { self.y } else { other.y },
            z: if self.z >= other.z { self.z } else { other.z },
        }
    }

    pub fn elem_min(&self, other: Vec3) -> (r: Vec3)
        ensures
            r.x == if self.x <= other.x { self.x } else { other.x },
            r.y == if self.y <= other.y { self.y } else { other.y },
            r.z == if self.z <= other.z { self.z } else { other.z },
    {
        Vec3 {
            x: if self.x <= other.x { self.x } else { other.x },
            y: if self.y <= other.y { self.y } else { other.y },
            z: if self.z <= other.z { self.z } else { other.z },
        }
    }

    /// Swap the x and z components.
    pub fn flip(&self) -> (r: Vec3)
        ensures
            r == (Vec3 { x: self.z, y: self.y, z: self.x }),
    {
        Vec3 { x: self.z, y: self.y, z: self.x }
    }

    /// Componentwise addition.
    pub fn add(self, o: Vec3) -> (r: Vec3)
        requires
            self.x + o.x <= u32::MAX,
            self.y + o.y <= u32::MAX,
            self.z + o.z <= u32::MAX,
        ensures
            r.x == self.x + o.x,
            r.y == self.y + o.y,
            r.z == self.z + o.z,
    {
        Vec3 { x: self.x + o.x, y: self.y + o.y, z: self.z + o.z }
    }

    /// Componentwise subtraction.
    pub fn sub(self, o: Vec3) -> (r: Vec3)
        requires
            o.all_le(self),
        ensures
            r.x == self.x - o.x,
            r.y == self.y - o.y,
            r.z == self.z - o.z,
    {
        Vec3 { x: self.x - o.x, y: self.y - o.y, z: self.z - o.z }
    }

    /// Componentwise left shift by a scalar.
    pub fn shl(self, s: u32) -> (r: Vec3)
        requires
            s < 32,
            self.x * pow2i(s as nat) <= u32::MAX,
            self.y * pow2i(s as nat) <= u32::MAX,
            self.z * pow2i(s as nat) <= u32::MAX,
        ensures
            r.x == self.x * pow2i(s as nat),
            r.y == self.y * pow2i(s as nat),
            r.z == self.z * pow2i(s as nat),
    {
        proof {
            shl_is_mul_u32(self.x, s);
            shl_is_mul_u32(self.y, s);
            shl_is_mul_u32(self.z, s);
        }
        Vec3 { x: self.x << s, y: self.y << s, z: self.z << s }
    }

    /// Componentwise right shift by a scalar.
    pub fn shr(self, s: u32) -> (r: Vec3)
        requires
            s < 32,
        ensures
            r.x == self.x as int / pow2i(s as nat),
            r.y == self.y as int / pow2i(s as nat),
            r.z == self.z as int / pow2i(s as nat),
    {
        proof {
            shr_is_div_u32(self.x, s);
            shr_is_div_u32(self.y, s);
            shr_is_div_u32(self.z, s);
        }
        Vec3 { x: self.x >> s, y: self.y >> s, z: self.z >> s }
    }

    /// Componentwise remainder.
    pub fn rem(self, o: Vec3) -> (r: Vec3)
        requires
            o.x > 0 && o.y > 0 && o.z > 0,
        ensures
            r.x == self.x % o.x,
            r.y == self.y % o.y,
            r.z == self.z % o.z,
    {
        Vec3 { x: self.x % o.x, y: self.y % o.y, z: self.z % o.z }
    }

    /// All components compare `<=` against `o`, as executable code.
    pub fn le(&self, o: Vec3) -> (r: bool)
        ensures
            r == self.all_le(o),
    {
        self.x <= o.x && self.y <= o.y && self.z <= o.z
    }

    /// All components compare `<` against `o`, as executable code.
    pub fn lt(&self, o: Vec3) -> (r: bool)
        ensures
            r == self.all_lt(o),
    {
        self.x < o.x && self.y < o.y && self.z < o.z
    }
}


impl PartialOrd for Vec3 {
    /// The componentwise partial order: comparable only when all three
    /// components agree on the direction.
    fn partial_cmp(&self, rhs: &Vec3) -> (r: Option<core::cmp::Ordering>) {
        if self.x < rhs.x && self.y < rhs.y && self.z < rhs.z {
            Some(core::cmp::Ordering::Less)
        } else if self.x == rhs.x && self.y == rhs.y && self.z == rhs.z {
            Some(core::cmp::Ordering::Equal)
        } else if self.x > rhs.x && self.y > rhs.y && self.z > rhs.z {
            Some(core::cmp::Ordering::Greater)
        } else {
            None
        }
    }
}

impl vstd::std_specs::cmp::PartialOrdSpecImpl for Vec3 {
    open spec fn obeys_partial_cmp_spec() -> bool {
        true
    }

    open spec fn partial_cmp_spec(&self, rhs: &Vec3) -> Option<core::cmp::Ordering> {
        if self.x < rhs.x && self.y < rhs.y && self.z < rhs.z {
            Some(core::cmp::Ordering::Less)
        } else if self.x == rhs.x && self.y == rhs.y && self.z == rhs.z {
            Some(core::cmp::Ordering::Equal)
        } else if self.x > rhs.x && self.y > rhs.y && self.z > rhs.z {
            Some(core::cmp::Ordering::Greater)
        } else {
            None
        }
    }
}

/// A left shift of a `u32` below 32 is a multiplication by a power of two.
pub proof fn shl_is_mul_u32(x: u32, s: u32)
    requires
        s < 32,
        x * pow2i(s as nat) <= u32::MAX,
    ensures
        x << s == x * pow2i(s as nat),
{
    vstd::bits::lemma_u32_shl_is_mul(x, s);
}

/// A right shift of a `u32` below 32 is a division by a power of two.
pub proof fn shr_is_div_u32(x: u32, s: u32)
    requires
        s < 32,
    ensures
        x >> s == x as int / pow2i(s as nat),
{
    vstd::bits::lemma_u32_shr_is_div(x, s);
}

/// An axis-aligned box with inclusive minimum and exclusive maximum.
#[derive(Clone, Copy, Debug, PartialEq, Eq, Structural)]
pub struct Box3 {
    pub min: Vec3,
    pub max: Vec3,
}

impl Box3 {
    /// Invariant: the minimum never exceeds the maximum.
    pub open spec fn wf(self) -> bool {
        self.min.all_le(self.max)
    }

    /// The point lies inside the box.
    pub open spec fn contains(self, p: Vec3) -> bool {
        self.min.all_le(p) && p.all_lt(self.max)
    }

    /// The elementwise clamped intersection of two boxes.
    pub open spec fn spec_intersect(self, rhs: Box3) -> Box3 {
        Box3 {
            min: Vec3 {
                x: clamped_max(self.min.x, rhs.min.x, self.max.x),
                y: clamped_max(self.min.y, rhs.min.y, self.max.y),
                z: clamped_max(self.min.z, rhs.min.z, self.max.z),
            },
            max: Vec3 {
                x: clamped_min(self.max.x, rhs.max.x, self.min.x),
                y: clamped_min(self.max.y, rhs.max.y, self.min.y),
                z: clamped_min(self.max.z, rhs.max.z, self.min.z),
            },
        }
    }

    pub open spec fn spec_is_empty(self) -> bool {
        self.min.x == self.max.x || self.min.y == self.max.y || self.min.z == self.max.z
    }

    pub fn new(min: Vec3, max: Vec3) -> (r: Result<Box3, WkwError>)
        ensures
            r is Ok <==> min.all_le(max),
            r matches Ok(b) ==> b == (Box3 { min, max }) && b.wf(),
            r is Err ==> r == Err::<Box3, WkwError>(WkwError::InvalidBox),
    {
        if min.le(max) {
            Ok(Box3 { min, max })
        } else {
            Err(WkwError::InvalidBox)
        }
    }

    /// A box spanning the origin up to the given shape.
    pub fn from_shape(shape: Vec3) -> (r: Box3)
        ensures
            r == (Box3 { min: Vec3 { x: 0, y: 0, z: 0 }, max: shape }),
            r.wf(),
    {
        Box3 { min: Vec3 { x: 0, y: 0, z: 0 }, max: shape }
    }

    pub fn min(&self) -> (r: Vec3)
        ensures
            r == self.min,
    {
        self.min
    }

    pub fn max(&self) -> (r: Vec3)
        ensures
            r == self.max,
    {
        self.max
    }

    pub fn width(&self) -> (r: Vec3)
        requires
            self.wf(),
        ensures
            r.x == self.max.x - self.min.x,
            r.y == self.max.y - self.min.y,
            r.z == self.max.z - self.min.z,
    {
        self.max.sub(self.min)
    }

    pub fn is_empty(&self) -> (r: bool)
        ensures
            r == self.spec_is_empty(),
    {
        self.min.x == self.max.x || self.min.y == self.max.y || self.min.z == self.max.z
    }

    pub fn intersect(&self, rhs: Box3) -> (r: Box3)
        requires
            self.wf(),
            rhs.wf(),
        ensures
            r == self.spec_intersect(rhs),
            r.wf(),
    {
        Box3 {
            min: self.min.elem_max(rhs.min).elem_min(self.max),
            max: self.max.elem_min(rhs.max).elem_max(self.min),
        }
    }

    /// Shift the box by a vector.
    pub fn translate(self, v: Vec3) -> (r: Box3)
        requires
            self.max.x + v.x <= u32::MAX,
            self.max.y + v.y <= u32::MAX,
            self.max.z + v.z <= u32::MAX,
            self.wf(),
        ensures
            r.min.x == self.min.x + v.x && r.min.y == self.min.y + v.y && r.min.z == self.min.z
                + v.z,
            r.max.x == self.max.x + v.x && r.max.y == self.max.y + v.y && r.max.z == self.max.z
                + v.z,
            r.wf(),
    {
        Box3 { min: self.min.add(v), max: self.max.add(v) }
    }

    /// Shift both bounds right, mapping voxel coordinates to cell indices.
    pub fn shr(self, s: u32) -> (r: Box3)
        requires
            s < 32,
            self.wf(),
        ensures
            r.min.x == self.min.x as int / pow2i(s as nat),
            r.min.y == self.min.y as int / pow2i(s as nat),
            r.min.z == self.min.z as int / pow2i(s as nat),
            r.max.x == self.max.x as int / pow2i(s as nat),
            r.max.y == self.max.y as int / pow2i(s as nat),
            r.max.z == self.max.z as int / pow2i(s as nat),
            r.wf(),
    {
        let r = Box3 { min: self.min.shr(s), max: self.max.shr(s) };
        proof {
            let p = pow2i(s as nat) as int;
            vstd::arithmetic::power2::lemma_pow2_pos(s as nat);
            vstd::arithmetic::div_mod::lemma_div_is_ordered(
                self.min.x as int,
                self.max.x as int,
                p,
            );
            vstd::arithmetic::div_mod::lemma_div_is_ordered(
                self.min.y as int,
                self.max.y as int,
                p,
            );
            vstd::arithmetic::div_mod::lemma_div_is_ordered(
                self.min.z as int,
                self.max.z as int,
                p,
            );
        }
        r
    }
}

/// Clamp `max(a, b)` from above by `hi`.
pub open spec fn clamped_max(a: u32, b: u32, hi: u32) -> u32 {
    let m = if a >= b {
        a
    } else {
        b
    };
    if m <= hi {
        m
    } else {
        hi
    }
}

/// Clamp `min(a, b)` from below by `lo`.
pub open spec fn clamped_min(a: u32, b: u32, lo: u32) -> u32 {
    let m = if a <= b {
        a
    } else {
        b
    };
    if m >= lo {
        m
    } else {
        lo
    }
}

/// Intersecting a box with itself gives the box back.
pub proof fn lemma_intersect_idempotent(b: Box3)
    requires
        b.wf(),
    ensures
        b.spec_intersect(b) == b,
{
}

/// A point lies in the intersection exactly when it lies in both boxes.
/// This membership form of commutativity holds for all boxes; the clamped
/// representatives of two disjoint intersections can differ structurally.
pub proof fn lemma_intersect_contains(a: Box3, b: Box3, p: Vec3)
    requires
        a.wf(),
        b.wf(),
    ensures
        a.spec_intersect(b).contains(p) <==> a.contains(p) && b.contains(p),
        a.spec_intersect(b).contains(p) <==> b.spec_intersect(a).contains(p),
{
}

/// When the two boxes overlap, intersection commutes structurally.
pub proof fn lemma_intersect_commutes(a: Box3, b: Box3)
    requires
        a.wf(),
        b.wf(),
        !a.spec_intersect(b).spec_is_empty(),
    ensures
        a.spec_intersect(b) == b.spec_intersect(a),
{
}

} // verus!
