//! Distance-driven level-of-detail policy with hysteresis.
//!
//! Each tick the server maps every player's distance to a terrain region
//! onto a desired level of detail: a monotonic step function, closer is
//! finer.  A region is regenerated only when the kept level would change,
//! and each change must clear a hysteresis band around the threshold it
//! crosses, so a player hovering near a boundary cannot thrash
//! regeneration.

use vstd::prelude::*;
use crate::space::Vec3;

verus! {

/// Number of levels the policy chooses among; 0 is the finest.
pub const LOD_COUNT: u8 = 4;

/// Distance below which the finest level is desired.
pub const LOD_NEAR: u64 = 0x400;

/// Distance below which at least the second level is desired.
pub const LOD_MID: u64 = 0x1000;

/// Distance below which at least the third level is desired.
pub const LOD_FAR: u64 = 0x4000;

/// Half-width of the hysteresis band around each threshold; thresholds are
/// spaced more than two bands apart.
pub const LOD_HYSTERESIS: u64 = 0x100;

/// Distance that stands for "no player anywhere near": farther than any
/// real pair of world positions.
pub const NO_PLAYER_DISTANCE: u64 = 0x4000_0000_0000_0000;

/// The level a player at distance `d` asks of a region, ignoring
/// hysteresis: a monotonic step function, closer is finer.
pub open spec fn spec_desired_lod(d: int) -> u8 {
    if d < LOD_NEAR {
        0
    } else if d < LOD_MID {
        1
    } else if d < LOD_FAR {
        2
    } else {
        3
    }
}

/// The nearest distance at which level `l` is desired (0 for the finest).
pub open spec fn lod_floor(l: u8) -> int {
    if l == 0 {
        0
    } else if l == 1 {
        LOD_NEAR as int
    } else if l == 2 {
        LOD_MID as int
    } else {
        LOD_FAR as int
    }
}

/// The distance at which level `l` gives way to `l + 1` (unreachably far
/// for the coarsest level).
pub open spec fn lod_ceil(l: u8) -> int {
    if l == 0 {
        LOD_NEAR as int
    } else if l == 1 {
        LOD_MID as int
    } else if l == 2 {
        LOD_FAR as int
    } else {
        0x7FFF_FFFF_FFFF_FFFF
    }
}

/// The level the policy keeps a region at, given its current level and the
/// nearest player's distance `d`: the desired level, except that a change
/// must clear the hysteresis band beyond the current level's own boundary.
pub open spec fn spec_update_lod(current: u8, d: int) -> u8 {
    let des = spec_desired_lod(d);
    if des == current {
        current
    } else if des > current {
        if d >= lod_ceil(current) + LOD_HYSTERESIS {
            des
        } else {
            current
        }
    } else {
        if d < lod_floor(current) - LOD_HYSTERESIS {
            des
        } else {
            current
        }
    }
}

/// Decides [`spec_desired_lod`].
pub fn desired_lod(d: u64) -> (r: u8)
    ensures
        r == spec_desired_lod(d as int),
        r < LOD_COUNT,
{
    if d < LOD_NEAR {
        0
    } else if d < LOD_MID {
        1
    } else if d < LOD_FAR {
        2
    } else {
        3
    }
}

/// Decides [`spec_update_lod`].
pub fn update_lod(current: u8, d: u64) -> (r: u8)
    requires
        current < LOD_COUNT,
    ensures
        r == spec_update_lod(current, d as int),
        r < LOD_COUNT,
{
    let des = desired_lod(d);
    if des == current {
        current
    } else if des > current {
        let ceil: u64 = if current == 0 {
            LOD_NEAR
        } else if current == 1 {
            LOD_MID
        } else {
            LOD_FAR
        };
        if d >= ceil + LOD_HYSTERESIS {
            des
        } else {
            current
        }
    } else {
        let floor: u64 = if current == 1 {
            LOD_NEAR
        } else if current == 2 {
            LOD_MID
        } else {
            LOD_FAR
        };
        if d < floor - LOD_HYSTERESIS {
            des
        } else {
            current
        }
    }
}

/// Hysteresis keeps the level put: a player oscillating across a threshold
/// `t` by less than the hysteresis margin causes no level change after the
/// first stabilization, whatever level the region started at.
pub proof fn lemma_hysteresis_stable(current: u8, t: u64, d1: u64, d2: u64)
    requires
        current < LOD_COUNT,
        t == LOD_NEAR || t == LOD_MID || t == LOD_FAR,
        t - LOD_HYSTERESIS < d1 < t + LOD_HYSTERESIS,
        t - LOD_HYSTERESIS < d2 < t + LOD_HYSTERESIS,
    ensures
        spec_update_lod(spec_update_lod(current, d1 as int), d2 as int) == spec_update_lod(
            current, d1 as int),
{
}

/// The nearest of the distances from positions `ps[i..]` to `c`, measured
/// with [`crate::space`]'s L-infinity metric; `NO_PLAYER_DISTANCE` when no
/// position remains.
pub open spec fn spec_nearest_from(ps: Seq<Vec3>, c: Vec3, i: int) -> int
    decreases ps.len() - i,
{
    if i < 0 || i >= ps.len() {
        NO_PLAYER_DISTANCE as int
    } else {
        let d = crate::space::spec_linf(ps[i], c);
        let rest = spec_nearest_from(ps, c, i + 1);
        if d < rest {
            d
        } else {
            rest
        }
    }
}

/// The nearest distance from any of `ps` to `c`.
pub open spec fn spec_nearest(ps: Seq<Vec3>, c: Vec3) -> int {
    spec_nearest_from(ps, c, 0)
}

/// Computes [`spec_nearest`]: how far the closest player is from `c`.
#[verifier::loop_isolation(false)]
pub fn nearest_distance(players: &Vec<Vec3>, c: Vec3) -> (r: u64)
    requires
        c.in_world(),
        forall|i: int| 0 <= i < players@.len() ==> (#[trigger] players@[i]).in_world(),
    ensures
        r == spec_nearest(players@, c),
{
    let mut acc: u64 = NO_PLAYER_DISTANCE;
    let mut i: usize = players.len();
    while i > 0
        invariant
            0 <= i <= players@.len(),
            acc == spec_nearest_from(players@, c, i as int),
        decreases i,
    {
        i -= 1;
        let d = crate::space::linf_distance(players[i], c);
        if d < acc {
            acc = d;
        }
    }
    acc
}

} // verus!
