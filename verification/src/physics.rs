//! Entity motion and collision against terrain.
//!
//! Per entity the server keeps an authoritative bounding volume, a
//! velocity, an acceleration accumulator fed by `Walk` intents, and a jump
//! intent.  Each tick the accumulator is folded into the velocity, the
//! volume moves, and any terrain overlap at the new position is reported
//! and resolved by zeroing the velocity.  A move that would leave the world
//! is discarded: the entity clamps to its last-known-good position.

use vstd::prelude::*;
use crate::space::{Aabb, Vec3, SPEED_LIMIT};

verus! {

/// Vertical impulse a jump gives a grounded entity.
pub const JUMP_SPEED: i64 = 0x200;

/// Terrain within this distance below an entity counts as ground.
pub const GROUND_TOLERANCE: i64 = 0x10;

/// A simulated entity: player and mob kinds share this state and the same
/// collision pass, and differ only in where their intents come from.
#[derive(Clone, Copy, PartialEq, Eq, Structural, Debug)]
pub struct Entity {
    /// Authoritative bounding volume.
    pub aabb: Aabb,
    /// Velocity, world units per tick.
    pub velocity: Vec3,
    /// Acceleration accumulator: `Walk` intents gather here until the tick
    /// integrates and drains them.
    pub accel: Vec3,
    /// Jump intent: set by `StartJump`, cleared by `StopJump`.
    pub jumping: bool,
}

/// `v` pulled back into `[-lim, lim]`.
pub open spec fn spec_clamp(v: int, lim: int) -> int {
    if v < -lim {
        -lim
    } else if v > lim {
        lim
    } else {
        v
    }
}

/// Each component of `v` pulled back into the speed limit.
pub open spec fn spec_clamp_vel(x: int, y: int, z: int) -> Vec3 {
    Vec3 {
        x: spec_clamp(x, SPEED_LIMIT as int) as i64,
        y: spec_clamp(y, SPEED_LIMIT as int) as i64,
        z: spec_clamp(z, SPEED_LIMIT as int) as i64,
    }
}

/// `b` moved by `v`.
pub open spec fn spec_translate(b: Aabb, v: Vec3) -> Aabb {
    Aabb {
        min: Vec3 {
            x: (b.min.x + v.x) as i64,
            y: (b.min.y + v.y) as i64,
            z: (b.min.z + v.z) as i64,
        },
        max: Vec3 {
            x: (b.max.x + v.x) as i64,
            y: (b.max.y + v.y) as i64,
            z: (b.max.z + v.z) as i64,
        },
    }
}

/// `b` overlaps some box of `terrain`.
pub open spec fn spec_hits_terrain(b: Aabb, terrain: Seq<Aabb>) -> bool {
    exists|i: int| 0 <= i < terrain.len() && b.spec_overlaps(#[trigger] terrain[i])
}

/// Terrain lies within [`GROUND_TOLERANCE`] below `b`: the entity stands on
/// it.
pub open spec fn spec_grounded(b: Aabb, terrain: Seq<Aabb>) -> bool {
    spec_hits_terrain(
        spec_translate(b, Vec3 { x: 0, y: (-GROUND_TOLERANCE) as i64, z: 0 }),
        terrain,
    )
}

/// The velocity one integration step gives `e`: accumulator applied, then
/// clamped to the speed limit.
pub open spec fn spec_integrated_velocity(e: Entity) -> Vec3 {
    spec_clamp_vel(
        e.velocity.x + e.accel.x,
        e.velocity.y + e.accel.y,
        e.velocity.z + e.accel.z,
    )
}

/// Where one step leaves `e`'s volume: moved by the integrated velocity,
/// unless that would leave the world, in which case it stays put.
pub open spec fn spec_stepped_aabb(e: Entity) -> Aabb {
    let moved = spec_translate(e.aabb, spec_integrated_velocity(e));
    if moved.in_world() {
        moved
    } else {
        e.aabb
    }
}

impl Entity {
    /// The state every physics entry point preserves.
    pub open spec fn wf(self) -> bool {
        &&& self.aabb.nonempty()
        &&& self.aabb.in_world()
        &&& self.velocity.is_velocity()
        &&& self.accel.is_velocity()
    }

    /// An entity at rest filling `aabb`.
    pub fn spawn(aabb: Aabb) -> (e: Entity)
        requires
            aabb.nonempty(),
            aabb.in_world(),
        ensures
            e.wf(),
            e.aabb == aabb,
            e.velocity == (Vec3 { x: 0, y: 0, z: 0 }),
            e.accel == (Vec3 { x: 0, y: 0, z: 0 }),
            !e.jumping,
    {
        Entity {
            aabb,
            velocity: Vec3::zero(),
            accel: Vec3::zero(),
            jumping: false,
        }
    }

    /// Folds a `Walk` intent into the acceleration accumulator; the result
    /// is clamped, never absolute, so clients steer but the server owns
    /// motion.
    pub fn apply_walk(&mut self, dv: Vec3)
        requires
            old(self).wf(),
            dv.is_velocity(),
        ensures
            final(self).wf(),
            final(self).accel == spec_clamp_vel(
                old(self).accel.x + dv.x,
                old(self).accel.y + dv.y,
                old(self).accel.z + dv.z,
            ),
            final(self).aabb == old(self).aabb,
            final(self).velocity == old(self).velocity,
            final(self).jumping == old(self).jumping,
    {
        self.accel = Vec3 {
            x: clamp_speed(self.accel.x + dv.x),
            y: clamp_speed(self.accel.y + dv.y),
            z: clamp_speed(self.accel.z + dv.z),
        };
    }

    /// Applies a jump impulse if and only if the entity is grounded on
    /// `terrain`; an airborne jump request is silently ignored.
    pub fn try_jump(&mut self, terrain: &Vec<Aabb>) -> (jumped: bool)
        requires
            old(self).wf(),
        ensures
            final(self).wf(),
            jumped == spec_grounded(old(self).aabb, terrain@),
            final(self).velocity == if jumped {
                (Vec3 { x: old(self).velocity.x, y: JUMP_SPEED, z: old(self).velocity.z })
            } else {
                old(self).velocity
            },
            final(self).jumping,
            final(self).aabb == old(self).aabb,
            final(self).accel == old(self).accel,
    {
        self.jumping = true;
        let feet = Aabb {
            min: Vec3 {
                x: self.aabb.min.x,
                y: self.aabb.min.y - GROUND_TOLERANCE,
                z: self.aabb.min.z,
            },
            max: Vec3 {
                x: self.aabb.max.x,
                y: self.aabb.max.y - GROUND_TOLERANCE,
                z: self.aabb.max.z,
            },
        };
        proof {
            assert(feet == spec_translate(
                self.aabb,
                Vec3 { x: 0, y: (-GROUND_TOLERANCE) as i64, z: 0 },
            ));
        }
        let grounded = hits_terrain(&feet, terrain);
        if grounded {
            self.velocity = Vec3 { x: self.velocity.x, y: JUMP_SPEED, z: self.velocity.z };
        }
        grounded
    }

    /// Withdraws the jump intent; nothing else changes.
    pub fn stop_jump(&mut self)
        requires
            old(self).wf(),
        ensures
            final(self).wf(),
            *final(self) == (Entity { jumping: false, ..*old(self) }),
    {
        self.jumping = false;
    }

    /// One fixed-timestep physics step: integrate the velocity, move the
    /// volume (staying put rather than leaving the world), and report
    /// whether the new position overlaps terrain.  On a hit the velocity is
    /// zeroed to resolve the contact.
    pub fn step(&mut self, terrain: &Vec<Aabb>) -> (hit: bool)
        requires
            old(self).wf(),
        ensures
            final(self).wf(),
            final(self).aabb == spec_stepped_aabb(*old(self)),
            hit == spec_hits_terrain(final(self).aabb, terrain@),
            final(self).velocity == if hit {
                (Vec3 { x: 0, y: 0, z: 0 })
            } else {
                spec_integrated_velocity(*old(self))
            },
            final(self).accel == (Vec3 { x: 0, y: 0, z: 0 }),
            final(self).jumping == old(self).jumping,
    {
        let v = Vec3 {
            x: clamp_speed(self.velocity.x + self.accel.x),
            y: clamp_speed(self.velocity.y + self.accel.y),
            z: clamp_speed(self.velocity.z + self.accel.z),
        };
        let moved = Aabb {
            min: Vec3 {
                x: self.aabb.min.x + v.x,
                y: self.aabb.min.y + v.y,
                z: self.aabb.min.z + v.z,
            },
            max: Vec3 {
                x: self.aabb.max.x + v.x,
                y: self.aabb.max.y + v.y,
                z: self.aabb.max.z + v.z,
            },
        };
        let stayed = if in_world(&moved) {
            moved
        } else {
            self.aabb
        };
        let hit = hits_terrain(&stayed, terrain);
        self.aabb = stayed;
        self.velocity = if hit {
            Vec3::zero()
        } else {
            v
        };
        self.accel = Vec3::zero();
        hit
    }
}

/// Pulls one velocity component back into the speed limit.
fn clamp_speed(v: i64) -> (r: i64)
    requires
        i64::MIN < v,
    ensures
        r == spec_clamp(v as int, SPEED_LIMIT as int),
{
    if v < -SPEED_LIMIT {
        -SPEED_LIMIT
    } else if v > SPEED_LIMIT {
        SPEED_LIMIT
    } else {
        v
    }
}

/// Decides [`crate::space::Aabb::in_world`].
fn in_world(b: &Aabb) -> (r: bool)
    ensures
        r == b.in_world(),
{
    let lim: i64 = crate::space::COORD_LIMIT;
    -lim <= b.min.x && b.min.x <= lim && -lim <= b.min.y && b.min.y <= lim && -lim <= b.min.z
        && b.min.z <= lim && -lim <= b.max.x && b.max.x <= lim && -lim <= b.max.y && b.max.y <= lim
        && -lim <= b.max.z && b.max.z <= lim
}

/// Decides [`spec_hits_terrain`].
#[verifier::loop_isolation(false)]
pub fn hits_terrain(b: &Aabb, terrain: &Vec<Aabb>) -> (r: bool)
    ensures
        r == spec_hits_terrain(*b, terrain@),
{
    let n: usize = terrain.len();
    let mut i: usize = 0;
    while i < n
        invariant
            0 <= i <= n,
            forall|j: int| 0 <= j < i ==> !b.spec_overlaps(#[trigger] terrain@[j]),
        decreases n - i,
    {
        if b.overlaps(&terrain[i]) {
            return true;
        }
        i += 1;
    }
    false
}

/// Collision symmetry: a terrain hit reported at the end of a step means
/// some terrain box genuinely shares a point with the entity's bounding
/// volume at tick end.
pub proof fn lemma_collision_symmetry(e: Entity, terrain: Seq<Aabb>)
    requires
        e.wf(),
        spec_hits_terrain(e.aabb, terrain),
        forall|i: int| 0 <= i < terrain.len() ==> (#[trigger] terrain[i]).nonempty(),
    ensures
        exists|i: int|
            0 <= i < terrain.len() && #[trigger] e.aabb.spec_shares_point(terrain[i]),
{
    let i = choose|i: int| 0 <= i < terrain.len() && e.aabb.spec_overlaps(#[trigger] terrain[i]);
    e.aabb.lemma_overlap_witness(terrain[i]);
}

} // verus!
