//! Integer fixed-point geometry: positions and axis-aligned boxes.
//!
//! All world coordinates are fixed-point integers.  Entity positions and
//! extents are [`Vec3`]/[`Aabb`] values; terrain regions are addressed by
//! [`Bounds`], a cube on the voxel grid whose side is a power of two (the
//! exponent doubles as the region's level of detail).

use vstd::prelude::*;
use vstd::arithmetic::power2::{pow2, lemma_pow2_unfold, lemma_pow2_pos, lemma2_to64};
use vstd::bits::lemma_u32_shl_is_mul;

verus! {

/// A position or displacement in fixed-point world units.
#[derive(Copy, Clone, PartialEq, Eq, Structural, Debug, Hash)]
pub struct Vec3 {
    pub x: i64,
    pub y: i64,
    pub z: i64,
}

/// Coordinates this far from the origin stay well inside `i64` under a tick of motion.
pub const COORD_LIMIT: i64 = 0x1000_0000_0000;

/// Largest velocity component magnitude the physics accepts, per tick.
pub const SPEED_LIMIT: i64 = 0x1_0000_0000;

impl Vec3 {
    /// Every component within the playable world.
    pub open spec fn in_world(self) -> bool {
        &&& -COORD_LIMIT <= self.x <= COORD_LIMIT
        &&& -COORD_LIMIT <= self.y <= COORD_LIMIT
        &&& -COORD_LIMIT <= self.z <= COORD_LIMIT
    }

    /// Every component small enough to be a per-tick velocity.
    pub open spec fn is_velocity(self) -> bool {
        &&& -SPEED_LIMIT <= self.x <= SPEED_LIMIT
        &&& -SPEED_LIMIT <= self.y <= SPEED_LIMIT
        &&& -SPEED_LIMIT <= self.z <= SPEED_LIMIT
    }

    /// The zero vector.
    pub fn zero() -> (r: Vec3)
        ensures
            r == (Vec3 { x: 0, y: 0, z: 0 }),
    {
        Vec3 { x: 0, y: 0, z: 0 }
    }
}

/// An axis-aligned box: `min` inclusive, `max` exclusive on each axis.
#[derive(Copy, Clone, PartialEq, Eq, Structural, Debug, Hash)]
pub struct Aabb {
    pub min: Vec3,
    pub max: Vec3,
}

impl Aabb {
    /// `min` does not exceed `max` on any axis.
    pub open spec fn wf(self) -> bool {
        self.min.x <= self.max.x && self.min.y <= self.max.y && self.min.z <= self.max.z
    }

    /// The box has positive extent on every axis.
    pub open spec fn nonempty(self) -> bool {
        self.min.x < self.max.x && self.min.y < self.max.y && self.min.z < self.max.z
    }

    /// Both corners lie within the playable world.
    pub open spec fn in_world(self) -> bool {
        self.min.in_world() && self.max.in_world()
    }

    /// The point `(px, py, pz)` lies inside the box.
    pub open spec fn spec_contains(self, px: int, py: int, pz: int) -> bool {
        &&& self.min.x <= px < self.max.x
        &&& self.min.y <= py < self.max.y
        &&& self.min.z <= pz < self.max.z
    }

    /// The two boxes share at least one point.
    pub open spec fn spec_overlaps(self, other: Aabb) -> bool {
        &&& self.min.x < other.max.x && other.min.x < self.max.x
        &&& self.min.y < other.max.y && other.min.y < self.max.y
        &&& self.min.z < other.max.z && other.min.z < self.max.z
    }

    /// Decides [`Aabb::spec_overlaps`].
    pub fn overlaps(&self, other: &Aabb) -> (r: bool)
        ensures
            r == self.spec_overlaps(*other),
    {
        self.min.x < other.max.x && other.min.x < self.max.x
            && self.min.y < other.max.y && other.min.y < self.max.y
            && self.min.z < other.max.z && other.min.z < self.max.z
    }

    /// The two boxes have a common point.
    pub open spec fn spec_shares_point(self, other: Aabb) -> bool {
        exists|px: int, py: int, pz: int|
            #[trigger] self.spec_contains(px, py, pz) && other.spec_contains(px, py, pz)
    }

    /// Overlap of nonempty boxes really is a shared point.
    pub proof fn lemma_overlap_witness(self, other: Aabb)
        requires
            self.nonempty(),
            other.nonempty(),
            self.spec_overlaps(other),
        ensures
            self.spec_shares_point(other),
    {
        let px = if self.min.x >= other.min.x { self.min.x as int } else { other.min.x as int };
        let py = if self.min.y >= other.min.y { self.min.y as int } else { other.min.y as int };
        let pz = if self.min.z >= other.min.z { self.min.z as int } else { other.min.z as int };
        assert(self.spec_contains(px, py, pz) && other.spec_contains(px, py, pz));
    }
}

/// Finest-to-coarsest range of region sizes: a region's side is `2^lg_size`.
pub const MAX_LG: u8 = 20;

/// The world's voxel grid spans `[0, 2^WORLD_LG)` on each axis.
pub const WORLD_LG: u8 = 30;

/// Extent of the voxel grid on each axis, as a mathematical integer.
pub open spec fn world_extent() -> int {
    pow2(WORLD_LG as nat) as int
}

/// A cubic terrain region on the voxel grid.
///
/// The region covers `[x * 2^lg_size, (x+1) * 2^lg_size)` on the x axis, and
/// likewise on y and z.  `lg_size` doubles as the region's level of detail:
/// larger means coarser.  Two requests with equal `Bounds` (and equal
/// requested level of detail) denote the same unit of generation work.
#[derive(Copy, Clone, PartialEq, Eq, Structural, Debug, Hash)]
pub struct Bounds {
    pub x: u32,
    pub y: u32,
    pub z: u32,
    pub lg_size: u8,
}

/// One coordinate axis of [`Bounds::spec_contains`]: cell `c` of side `s`
/// holds the points `[c*s, (c+1)*s)`.
pub open spec fn cell_contains(c: int, s: int, p: int) -> bool {
    c * s <= p < (c + 1) * s
}

proof fn lemma_axis_coord_small(c: int, s: int)
    requires
        c >= 0,
        s >= 2,
        (c + 1) * s <= 0x4000_0000,
    ensures
        c < 0x2000_0000,
{
    assert((c + 1) * 2 <= (c + 1) * s) by (nonlinear_arith)
        requires
            s >= 2,
            c >= 0,
    ;
}

proof fn lemma_axis_octant_wf(c: int, d: int, s: int)
    requires
        c >= 0,
        0 <= d <= 1,
        s >= 1,
        (c + 1) * (2 * s) <= 0x4000_0000,
    ensures
        (2 * c + d + 1) * s <= 0x4000_0000,
{
    assert((2 * c + d + 1) * s <= (c + 1) * (2 * s)) by (nonlinear_arith)
        requires
            s >= 1,
            c >= 0,
            0 <= d <= 1,
    ;
}

proof fn lemma_axis_contained(c: int, d: int, s: int, p: int)
    requires
        c >= 0,
        0 <= d <= 1,
        s >= 1,
        cell_contains(2 * c + d, s, p),
    ensures
        cell_contains(c, 2 * s, p),
{
    assert(c * (2 * s) <= (2 * c + d) * s) by (nonlinear_arith)
        requires
            c >= 0,
            0 <= d,
            s >= 1,
    ;
    assert((2 * c + d + 1) * s <= (c + 1) * (2 * s)) by (nonlinear_arith)
        requires
            d <= 1,
            s >= 1,
    ;
}

proof fn lemma_axis_disjoint(c1: int, c2: int, s: int, p: int)
    requires
        s >= 1,
        c1 != c2,
        cell_contains(c1, s, p),
    ensures
        !cell_contains(c2, s, p),
{
    if c1 < c2 {
        assert((c1 + 1) * s <= c2 * s) by (nonlinear_arith)
            requires
                s >= 1,
                c1 + 1 <= c2,
        ;
    } else {
        assert((c2 + 1) * s <= c1 * s) by (nonlinear_arith)
            requires
                s >= 1,
                c2 + 1 <= c1,
        ;
    }
}

proof fn lemma_axis_cover(c: int, s: int, p: int)
    requires
        c >= 0,
        s >= 1,
        cell_contains(c, 2 * s, p),
    ensures
        cell_contains(2 * c, s, p) || cell_contains(2 * c + 1, s, p),
{
    assert(c * (2 * s) == (2 * c) * s) by (nonlinear_arith);
    assert((c + 1) * (2 * s) == (2 * c + 2) * s) by (nonlinear_arith);
}

impl Bounds {
    /// Side length of the region, `2^lg_size`.
    pub open spec fn side(self) -> int {
        pow2(self.lg_size as nat) as int
    }

    /// The region is a legal subdivision cell: its size is in range and it
    /// lies inside the world grid.
    pub open spec fn wf(self) -> bool {
        &&& self.lg_size <= MAX_LG
        &&& (self.x + 1) * self.side() <= world_extent()
        &&& (self.y + 1) * self.side() <= world_extent()
        &&& (self.z + 1) * self.side() <= world_extent()
    }

    /// The grid point `(px, py, pz)` lies inside the region.
    pub open spec fn spec_contains(self, px: int, py: int, pz: int) -> bool {
        &&& cell_contains(self.x as int, self.side(), px)
        &&& cell_contains(self.y as int, self.side(), py)
        &&& cell_contains(self.z as int, self.side(), pz)
    }

    /// Octant `k` (0 to 7) of the region: half the side, with the low bits of
    /// `k` choosing the upper or lower half on each axis.
    pub open spec fn spec_octant(self, k: int) -> Bounds {
        Bounds {
            x: (2 * self.x + k % 2) as u32,
            y: (2 * self.y + (k / 2) % 2) as u32,
            z: (2 * self.z + k / 4) as u32,
            lg_size: (self.lg_size - 1) as u8,
        }
    }

    /// A splittable region's coordinates are small: doubling cannot overflow.
    pub proof fn lemma_coord_small(self)
        requires
            self.wf(),
            self.lg_size >= 1,
        ensures
            self.x < 0x2000_0000,
            self.y < 0x2000_0000,
            self.z < 0x2000_0000,
    {
        lemma2_to64();
        lemma_pow2_unfold(self.lg_size as nat);
        lemma_pow2_pos((self.lg_size - 1) as nat);
        let s: int = self.side();
        assert(s >= 2);
        lemma_axis_coord_small(self.x as int, s);
        lemma_axis_coord_small(self.y as int, s);
        lemma_axis_coord_small(self.z as int, s);
    }

    /// Each octant of a well-formed splittable region is well formed, one
    /// level finer.
    pub proof fn lemma_octant_wf(self, k: int)
        requires
            self.wf(),
            self.lg_size >= 1,
            0 <= k < 8,
        ensures
            self.spec_octant(k).wf(),
            self.spec_octant(k).lg_size == self.lg_size - 1,
    {
        lemma2_to64();
        self.lemma_coord_small();
        lemma_pow2_unfold(self.lg_size as nat);
        lemma_pow2_pos((self.lg_size - 1) as nat);
        let s: int = pow2((self.lg_size - 1) as nat) as int;
        let o = self.spec_octant(k);
        assert(o.x == 2 * self.x + k % 2 && o.y == 2 * self.y + (k / 2) % 2 && o.z == 2 * self.z
            + k / 4);
        lemma_axis_octant_wf(self.x as int, k % 2, s);
        lemma_axis_octant_wf(self.y as int, (k / 2) % 2, s);
        lemma_axis_octant_wf(self.z as int, k / 4, s);
    }

    /// Every point of an octant lies in the parent region.
    pub proof fn lemma_octant_contained(self, k: int, px: int, py: int, pz: int)
        requires
            self.wf(),
            self.lg_size >= 1,
            0 <= k < 8,
            self.spec_octant(k).spec_contains(px, py, pz),
        ensures
            self.spec_contains(px, py, pz),
    {
        self.lemma_coord_small();
        lemma_pow2_unfold(self.lg_size as nat);
        lemma_pow2_pos((self.lg_size - 1) as nat);
        let s: int = pow2((self.lg_size - 1) as nat) as int;
        lemma_axis_contained(self.x as int, k % 2, s, px);
        lemma_axis_contained(self.y as int, (k / 2) % 2, s, py);
        lemma_axis_contained(self.z as int, k / 4, s, pz);
    }

    /// Distinct octants of one region share no point.
    pub proof fn lemma_octants_disjoint(self, j: int, k: int, px: int, py: int, pz: int)
        requires
            self.wf(),
            self.lg_size >= 1,
            0 <= j < 8,
            0 <= k < 8,
            j != k,
        ensures
            !(self.spec_octant(j).spec_contains(px, py, pz) && self.spec_octant(k).spec_contains(
                px, py, pz)),
    {
        self.lemma_coord_small();
        lemma_pow2_pos((self.lg_size - 1) as nat);
        let s: int = pow2((self.lg_size - 1) as nat) as int;
        let oj = self.spec_octant(j);
        let ok = self.spec_octant(k);
        if oj.spec_contains(px, py, pz) && ok.spec_contains(px, py, pz) {
            assert(j % 2 == k % 2 && (j / 2) % 2 == (k / 2) % 2 && j / 4 == k / 4) by {
                if j % 2 != k % 2 {
                    lemma_axis_disjoint(oj.x as int, ok.x as int, s, px);
                }
                if (j / 2) % 2 != (k / 2) % 2 {
                    lemma_axis_disjoint(oj.y as int, ok.y as int, s, py);
                }
                if j / 4 != k / 4 {
                    lemma_axis_disjoint(oj.z as int, ok.z as int, s, pz);
                }
            }
            assert(j == k);
        }
    }

    /// Every point of a splittable region lies in one of its octants.
    pub proof fn lemma_octants_cover(self, px: int, py: int, pz: int)
        requires
            self.wf(),
            self.lg_size >= 1,
            self.spec_contains(px, py, pz),
        ensures
            exists|k: int|
                0 <= k < 8 && #[trigger] self.spec_octant(k).spec_contains(px, py, pz),
    {
        self.lemma_coord_small();
        lemma_pow2_unfold(self.lg_size as nat);
        lemma_pow2_pos((self.lg_size - 1) as nat);
        let s: int = pow2((self.lg_size - 1) as nat) as int;
        lemma_axis_cover(self.x as int, s, px);
        lemma_axis_cover(self.y as int, s, py);
        lemma_axis_cover(self.z as int, s, pz);
        let dx: int = if cell_contains(2 * self.x as int, s, px) { 0 } else { 1 };
        let dy: int = if cell_contains(2 * self.y as int, s, py) { 0 } else { 1 };
        let dz: int = if cell_contains(2 * self.z as int, s, pz) { 0 } else { 1 };
        let k: int = dx + 2 * dy + 4 * dz;
        assert(k % 2 == dx && (k / 2) % 2 == dy && k / 4 == dz);
        assert(self.spec_octant(k).spec_contains(px, py, pz));
    }

    /// Decides [`Bounds::wf`]: whether the region is a legal subdivision
    /// cell of the world grid.
    pub fn check_wf(&self) -> (r: bool)
        ensures
            r == self.wf(),
    {
        if self.lg_size > MAX_LG {
            return false;
        }
        proof {
            lemma2_to64();
            if ((self.lg_size as nat) as int) < 30 {
                vstd::arithmetic::power2::lemma_pow2_strictly_increases(self.lg_size as nat, 30);
            }
            vstd::bits::lemma_u64_shl_is_mul(1u64, self.lg_size as u64);
            lemma_pow2_pos(self.lg_size as nat);
            let s: int = self.side();
            assert((self.x + 1) * s <= 0x2_0000_0000 * 0x200000 && (self.y + 1) * s
                <= 0x2_0000_0000 * 0x200000 && (self.z + 1) * s <= 0x2_0000_0000
                * 0x200000) by (nonlinear_arith)
                requires
                    0 < s <= 0x200000,
                    0 <= self.x < 0x1_0000_0000,
                    0 <= self.y < 0x1_0000_0000,
                    0 <= self.z < 0x1_0000_0000,
            ;
        }
        let s: u64 = 1u64 << self.lg_size;
        (self.x as u64 + 1) * s <= 0x4000_0000 && (self.y as u64 + 1) * s <= 0x4000_0000 && (
        self.z as u64 + 1) * s <= 0x4000_0000
    }

    /// Computes octant `k` of a splittable region.
    pub fn octant(&self, k: usize) -> (r: Bounds)
        requires
            self.wf(),
            self.lg_size >= 1,
            k < 8,
        ensures
            r == self.spec_octant(k as int),
            r.wf(),
            r.lg_size == self.lg_size - 1,
    {
        proof {
            self.lemma_coord_small();
            self.lemma_octant_wf(k as int);
        }
        Bounds {
            x: 2 * self.x + ((k % 2) as u32),
            y: 2 * self.y + (((k / 2) % 2) as u32),
            z: 2 * self.z + ((k / 4) as u32),
            lg_size: self.lg_size - 1,
        }
    }

    /// The region as a box in world units.
    pub open spec fn spec_to_aabb(self) -> Aabb {
        Aabb {
            min: Vec3 {
                x: (self.x * self.side()) as i64,
                y: (self.y * self.side()) as i64,
                z: (self.z * self.side()) as i64,
            },
            max: Vec3 {
                x: ((self.x + 1) * self.side()) as i64,
                y: ((self.y + 1) * self.side()) as i64,
                z: ((self.z + 1) * self.side()) as i64,
            },
        }
    }

    /// Computes [`Bounds::spec_to_aabb`], the region as a box in world
    /// units.
    pub fn to_aabb(&self) -> (r: Aabb)
        requires
            self.wf(),
        ensures
            r == self.spec_to_aabb(),
            r.min.x == self.x * self.side() && r.max.x == (self.x + 1) * self.side(),
            r.min.y == self.y * self.side() && r.max.y == (self.y + 1) * self.side(),
            r.min.z == self.z * self.side() && r.max.z == (self.z + 1) * self.side(),
            r.nonempty(),
            r.in_world(),
    {
        proof {
            lemma2_to64();
            lemma_u32_shl_is_mul(1u32, self.lg_size as u32);
            lemma_pow2_pos(self.lg_size as nat);
            let s: int = self.side();
            assert(self.x * s < (self.x + 1) * s && self.y * s < (self.y + 1) * s && self.z * s
                < (self.z + 1) * s && 0 <= self.x * s && 0 <= self.y * s && 0 <= self.z
                * s) by (nonlinear_arith)
                requires
                    s >= 1,
                    self.x >= 0,
                    self.y >= 0,
                    self.z >= 0,
            ;
        }
        let s: u64 = (1u32 << self.lg_size) as u64;
        Aabb {
            min: Vec3 {
                x: (self.x as u64 * s) as i64,
                y: (self.y as u64 * s) as i64,
                z: (self.z as u64 * s) as i64,
            },
            max: Vec3 {
                x: ((self.x as u64 + 1) * s) as i64,
                y: ((self.y as u64 + 1) * s) as i64,
                z: ((self.z as u64 + 1) * s) as i64,
            },
        }
    }
}

/// The absolute value of a mathematical integer.
pub open spec fn spec_abs(a: int) -> int {
    if a < 0 {
        -a
    } else {
        a
    }
}

/// The L-infinity (chessboard) distance between two positions: the largest
/// per-axis separation.
pub open spec fn spec_linf(a: Vec3, b: Vec3) -> int {
    let dx = spec_abs(a.x - b.x);
    let dy = spec_abs(a.y - b.y);
    let dz = spec_abs(a.z - b.z);
    if dx >= dy && dx >= dz {
        dx
    } else if dy >= dz {
        dy
    } else {
        dz
    }
}

/// Computes [`spec_linf`].
pub fn linf_distance(a: Vec3, b: Vec3) -> (r: u64)
    requires
        a.in_world(),
        b.in_world(),
    ensures
        r == spec_linf(a, b),
{
    let dx: i64 = if a.x >= b.x {
        a.x - b.x
    } else {
        b.x - a.x
    };
    let dy: i64 = if a.y >= b.y {
        a.y - b.y
    } else {
        b.y - a.y
    };
    let dz: i64 = if a.z >= b.z {
        a.z - b.z
    } else {
        b.z - a.z
    };
    if dx >= dy && dx >= dz {
        dx as u64
    } else if dy >= dz {
        dy as u64
    } else {
        dz as u64
    }
}

/// A pair of fixed-point angles: yaw and pitch of a look direction.
#[derive(Copy, Clone, PartialEq, Eq, Structural, Debug, Hash)]
pub struct Vec2 {
    pub x: i64,
    pub y: i64,
}

} // verus!
