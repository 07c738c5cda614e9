//! The server: lease handshake, message dispatch, and the tick step.
//!
//! A host loop owns the transport and the generation workers; this module
//! owns every decision.  Inbound messages go through [`Server::handle`],
//! finished generation work through [`Server::complete_generation`], and
//! once per fixed timestep the host calls [`Server::tick`].  Each call
//! returns an [`Output`]: the messages to send, each tagged with the client
//! it goes to, and the generation tasks to start.  No call blocks: slow
//! generation only delays terrain, never the simulation.

use vstd::prelude::*;
use crate::lod::{update_lod, spec_update_lod, spec_nearest, nearest_distance, LOD_COUNT};
use crate::octree::{Octree, spec_inside, inside, is_leaf_entry, spec_same_lod};
use crate::physics::{
    Entity,
    spec_clamp,
    spec_clamp_vel,
    spec_stepped_aabb,
    spec_translate,
    spec_grounded,
    GROUND_TOLERANCE,
    JUMP_SPEED,
};
use crate::octree::found_entry;
use crate::protocol::{
    ClientId,
    ClientToServer,
    Collision,
    MobId,
    PlayerId,
    ServerToClient,
    Voxel,
    VoxelReason,
};
use crate::space::{Aabb, Bounds, Vec2, Vec3, SPEED_LIMIT};
use crate::tracker::{
    Tracker,
    TerrainKey,
    TrackerView,
    Waiter,
    spec_request,
    spec_complete,
    has_key,
    waiters_of,
};

verus! {

/// Length of the day: `UpdateSun` carries a position in `[0, SUN_CYCLE)`.
pub const SUN_CYCLE: u32 = 0x10000;

/// Largest look-angle magnitude kept per axis.
pub const ANGLE_LIMIT: i64 = 0x1_0000_0000;

/// A connected client: its leased id and the return address it gave in
/// `Init`.
pub struct Client {
    /// The leased id.
    pub id: ClientId,
    /// Where the host routes this client's pushes.
    pub addr: String,
}

/// A player: one entity owned by one client.
#[derive(Copy, Clone, PartialEq, Eq, Structural, Debug)]
pub struct Player {
    /// The player's entity id.
    pub id: PlayerId,
    /// The client this player belongs to for the session's lifetime.
    pub owner: ClientId,
    /// Simulated state.
    pub entity: Entity,
    /// Look direction from accumulated `RotatePlayer` intents.
    pub look: Vec2,
}

/// A mob: an entity with no owning client, moved by scripted intents that
/// the host feeds in; it runs through the same physics pass as players.
#[derive(Copy, Clone, PartialEq, Eq, Structural, Debug)]
pub struct Mob {
    /// The mob's entity id.
    pub id: MobId,
    /// Simulated state.
    pub entity: Entity,
}

/// What one call asks of the host: messages to send and generation tasks
/// to start (fire-and-forget; results come back through
/// [`Server::complete_generation`]).
pub struct Output {
    /// Messages, each to the named client.
    pub messages: Vec<(ClientId, ServerToClient)>,
    /// Generation work to hand to the worker pool.
    pub tasks: Vec<(Bounds, u8)>,
}

/// Client `id` holds a lease.
pub open spec fn spec_has_client(cs: Seq<Client>, id: ClientId) -> bool {
    exists|i: int| 0 <= i < cs.len() && (#[trigger] cs[i]).id == id
}

/// Player `id` exists.
pub open spec fn spec_has_player(ps: Seq<Player>, id: PlayerId) -> bool {
    exists|i: int| 0 <= i < ps.len() && (#[trigger] ps[i]).id == id
}

/// The index of player `id` (meaningful when it exists and ids are
/// distinct).
pub open spec fn spec_player_index(ps: Seq<Player>, id: PlayerId) -> int {
    choose|i: int| 0 <= i < ps.len() && (#[trigger] ps[i]).id == id
}

/// `a` is the world-unit box of some generated block of `oct`.
pub open spec fn is_terrain_box(oct: Octree, a: Aabb) -> bool {
    exists|bb: Bounds| (#[trigger] oct.spec_get(bb)) is Some && a == bb.spec_to_aabb()
}

/// The volume `b` overlaps some generated block of `oct`.
pub open spec fn spec_hits_world(oct: Octree, b: Aabb) -> bool {
    exists|bb: Bounds|
        (#[trigger] oct.spec_get(bb)) is Some && b.spec_overlaps(bb.spec_to_aabb())
}

/// A terrain list holding exactly the generated blocks' boxes decides
/// overlap the same way the store does.
proof fn lemma_hits_equiv(oct: Octree, ts: Seq<Aabb>, b: Aabb)
    requires
        forall|j: int| 0 <= j < ts.len() ==> is_terrain_box(oct, #[trigger] ts[j]),
        forall|bb: Bounds|
            (#[trigger] oct.spec_get(bb)) is Some ==> ts.contains(bb.spec_to_aabb()),
    ensures
        crate::physics::spec_hits_terrain(b, ts) == spec_hits_world(oct, b),
{
    if crate::physics::spec_hits_terrain(b, ts) {
        let i = choose|i: int| 0 <= i < ts.len() && b.spec_overlaps(#[trigger] ts[i]);
        assert(is_terrain_box(oct, ts[i]));
        let bb = choose|bb: Bounds|
            (#[trigger] oct.spec_get(bb)) is Some && ts[i] == bb.spec_to_aabb();
        assert(oct.spec_get(bb) is Some && b.spec_overlaps(bb.spec_to_aabb()));
    }
    if spec_hits_world(oct, b) {
        let bb = choose|bb: Bounds|
            (#[trigger] oct.spec_get(bb)) is Some && b.spec_overlaps(bb.spec_to_aabb());
        assert(ts.contains(bb.spec_to_aabb()));
        let i = choose|i: int| 0 <= i < ts.len() && ts[i] == bb.spec_to_aabb();
        assert(b.spec_overlaps(ts[i]));
    }
}

/// The entity volume `b` stands on generated terrain of `oct`: some
/// generated block overlaps the volume shifted down by the ground
/// tolerance.
pub open spec fn spec_on_ground(oct: Octree, b: Aabb) -> bool {
    exists|bb: Bounds|
        (#[trigger] oct.spec_get(bb)) is Some && spec_translate(
            b,
            Vec3 { x: 0, y: (-GROUND_TOLERANCE) as i64, z: 0 },
        ).spec_overlaps(bb.spec_to_aabb())
}

/// A terrain list holding exactly the generated blocks' boxes decides the
/// ground test the same way the store does.
proof fn lemma_ground_equiv(oct: Octree, ts: Seq<Aabb>, b: Aabb)
    requires
        forall|j: int| 0 <= j < ts.len() ==> is_terrain_box(oct, #[trigger] ts[j]),
        forall|bb: Bounds|
            (#[trigger] oct.spec_get(bb)) is Some ==> ts.contains(bb.spec_to_aabb()),
    ensures
        spec_grounded(b, ts) == spec_on_ground(oct, b),
{
    let down = spec_translate(b, Vec3 { x: 0, y: (-GROUND_TOLERANCE) as i64, z: 0 });
    if spec_grounded(b, ts) {
        let i = choose|i: int| 0 <= i < ts.len() && down.spec_overlaps(#[trigger] ts[i]);
        assert(is_terrain_box(oct, ts[i]));
        let bb = choose|bb: Bounds|
            (#[trigger] oct.spec_get(bb)) is Some && ts[i] == bb.spec_to_aabb();
        assert(oct.spec_get(bb) is Some && down.spec_overlaps(bb.spec_to_aabb()));
    }
    if spec_on_ground(oct, b) {
        let bb = choose|bb: Bounds|
            (#[trigger] oct.spec_get(bb)) is Some && down.spec_overlaps(bb.spec_to_aabb());
        assert(ts.contains(bb.spec_to_aabb()));
        let i = choose|i: int| 0 <= i < ts.len() && ts[i] == bb.spec_to_aabb();
        assert(down.spec_overlaps(ts[i]));
    }
}

/// The positions the level-of-detail policy measures from: each player's
/// minimum corner.
pub open spec fn spec_positions(ps: Seq<Player>) -> Seq<Vec3> {
    ps.map(|idx: int, p: Player| p.entity.aabb.min)
}

/// The point of a region the policy measures distance to.
pub open spec fn spec_centroid(b: Bounds) -> Vec3 {
    let a = b.spec_to_aabb();
    Vec3 {
        x: (a.min.x + (a.max.x - a.min.x) / 2) as i64,
        y: (a.min.y + (a.max.y - a.min.y) / 2) as i64,
        z: (a.min.z + (a.max.z - a.min.z) / 2) as i64,
    }
}

/// A stored level pulled into the policy's range.
pub open spec fn spec_cap_lod(l: u8) -> u8 {
    if l < LOD_COUNT {
        l
    } else {
        (LOD_COUNT - 1) as u8
    }
}

/// The level the policy keeps for the generated block at `b`, judged by
/// the nearest of `ps`.
pub open spec fn spec_policy_target(oct: Octree, ps: Seq<Player>, b: Bounds) -> u8 {
    let cur = spec_cap_lod((oct.spec_get(b)->Some_0).0);
    spec_update_lod(cur, spec_nearest(spec_positions(ps), spec_centroid(b)))
}

/// The policy demands regeneration of the block at `b`: it is generated,
/// and the level it should be kept at differs from the level it has.
pub open spec fn spec_policy_changes(oct: Octree, ps: Seq<Player>, b: Bounds) -> bool {
    &&& oct.spec_get(b) is Some
    &&& spec_policy_target(oct, ps, b) != spec_cap_lod((oct.spec_get(b)->Some_0).0)
}

/// Row-major indexing stays inside the block of rows before `rows`.
proof fn lemma_row_index_bound(mi2: int, ci2: int, rows: int, ncl: int)
    requires
        0 <= mi2 < rows,
        0 <= ci2 < ncl,
    ensures
        0 <= mi2 * ncl + ci2 < rows * ncl,
{
    assert((mi2 + 1) * ncl <= rows * ncl) by (nonlinear_arith)
        requires
            0 <= mi2 + 1 <= rows,
            ncl >= 0,
    ;
    assert(0 <= mi2 * ncl && mi2 * ncl + ci2 < (mi2 + 1) * ncl) by (nonlinear_arith)
        requires
            0 <= mi2,
            0 <= ci2 < ncl,
    ;
}

/// Player `i`'s tick-end volume overlaps another entity's: another
/// player's, or a mob's.
pub open spec fn spec_hits_entities(ps: Seq<Player>, ms: Seq<Mob>, i: int) -> bool {
    ||| exists|j: int|
        0 <= j < ps.len() && j != i && ps[i].entity.aabb.spec_overlaps(
            (#[trigger] ps[j]).entity.aabb,
        )
    ||| exists|j: int|
        0 <= j < ms.len() && ps[i].entity.aabb.spec_overlaps((#[trigger] ms[j]).entity.aabb)
}

/// `m` is a terrain-collision report about one of `s`'s players whose
/// tick-end volume really overlaps a generated block, addressed to that
/// player's owner.
pub open spec fn is_collision_report(s: Server, m: (ClientId, ServerToClient)) -> bool {
    exists|i: int|
        0 <= i < s.players@.len() && spec_hits_world(
            s.octree,
            spec_stepped_aabb((#[trigger] s.players@[i]).entity),
        ) && m == (
            s.players@[i].owner,
            ServerToClient::Collision(Collision::PlayerTerrain(s.players@[i].id)),
        )
}

/// `m` is an entity-collision report about one of `s`'s players whose
/// tick-end volume really overlaps another entity's, addressed to that
/// player's owner; `ps_fin` and `ms_fin` are the tick-end entities.
pub open spec fn is_misc_report(
    s: Server,
    ps_fin: Seq<Player>,
    ms_fin: Seq<Mob>,
    m: (ClientId, ServerToClient),
) -> bool {
    exists|i: int|
        0 <= i < s.players@.len() && spec_hits_entities(ps_fin, ms_fin, i) && m == (
            (#[trigger] s.players@[i]).owner,
            ServerToClient::Collision(Collision::PlayerMisc(s.players@[i].id)),
        )
}

/// `m` tells one of `s`'s clients where mob `i` now is; `mobs_now` is the
/// mob list at the end of the tick.
pub open spec fn is_mob_report(s: Server, mobs_now: Seq<Mob>, m: (ClientId, ServerToClient)) -> bool {
    exists|i: int, c: int|
        0 <= i < s.mobs@.len() && 0 <= c < s.clients@.len() && m == (
            (#[trigger] s.clients@[c]).id,
            ServerToClient::UpdateMob((#[trigger] s.mobs@[i]).id, mobs_now[i].entity.aabb),
        )
}

/// The authoritative server state.
pub struct Server {
    /// The id the next `Init` leases.
    pub next_client: u32,
    /// The id the next `AddPlayer` assigns.
    pub next_player: u32,
    /// Leased connections, in lease order.
    pub clients: Vec<Client>,
    /// Player entities, in spawn order.
    pub players: Vec<Player>,
    /// Mob entities, in spawn order.
    pub mobs: Vec<Mob>,
    /// The id the next mob spawn assigns.
    pub next_mob: u32,
    /// The terrain store.
    pub octree: Octree,
    /// In-flight generation, deduplicated.
    pub tracker: Tracker,
    /// Position of the sun in its cycle.
    pub sun: u32,
}

/// Where new players appear.
pub open spec fn spec_spawn_aabb() -> Aabb {
    Aabb {
        min: Vec3 { x: 0x100, y: 0x100, z: 0x100 },
        max: Vec3 { x: 0x140, y: 0x180, z: 0x140 },
    }
}

/// Builds [`spec_spawn_aabb`].
pub fn spawn_aabb() -> (r: Aabb)
    ensures
        r == spec_spawn_aabb(),
        r.nonempty(),
        r.in_world(),
{
    Aabb {
        min: Vec3 { x: 0x100, y: 0x100, z: 0x100 },
        max: Vec3 { x: 0x140, y: 0x180, z: 0x140 },
    }
}

/// The effect of one voxel request on the tracker, as seen from outside:
/// a region already generated is answered at once; otherwise the waiter
/// joins the (possibly new) record, and exactly when the record is new a
/// task for the region at its own level starts.  A malformed or
/// out-of-world region is discarded.
pub open spec fn spec_request_one(
    oct: Octree,
    m: TrackerView,
    b: Bounds,
    cid: ClientId,
    t: u64,
) -> (TrackerView, int, Seq<(Bounds, u8)>) {
    if !b.wf() || !spec_inside(b, oct.root_bounds()) {
        (m, 0, Seq::<(Bounds, u8)>::empty())
    } else if oct.spec_get(b) is Some {
        (m, 1, Seq::<(Bounds, u8)>::empty())
    } else {
        let k = (TerrainKey { bounds: b, lod: b.lg_size });
        let w = (Waiter { client: cid, reason: VoxelReason::Requested { at: t } });
        let (m2, sp) = spec_request(m, k, w);
        (m2, 0, if sp {
            seq![(b, b.lg_size)]
        } else {
            Seq::<(Bounds, u8)>::empty()
        })
    }
}

/// [`spec_request_one`] folded over the regions from index `i` on: the
/// reply count and the spawned tasks, in request order.
pub open spec fn spec_request_from(
    oct: Octree,
    m: TrackerView,
    bs: Seq<Bounds>,
    i: int,
    cid: ClientId,
    t: u64,
) -> (TrackerView, int, Seq<(Bounds, u8)>)
    decreases bs.len() - i,
{
    if i < 0 || i >= bs.len() {
        (m, 0, Seq::<(Bounds, u8)>::empty())
    } else {
        let (m1, r1, t1) = spec_request_one(oct, m, bs[i], cid, t);
        let (m2, r2, t2) = spec_request_from(oct, m1, bs, i + 1, cid, t);
        (m2, r1 + r2, t1 + t2)
    }
}

/// How many cells from the player the brush acts.
pub const BRUSH_REACH: i64 = 4;

/// The compass sector of a yaw angle: `[-ANGLE_LIMIT, ANGLE_LIMIT]` split
/// into eight equal sectors, the topmost edge folded into the last.
pub open spec fn spec_yaw_sector(yaw: i64) -> int {
    let s = (yaw + ANGLE_LIMIT) * 8 / (2 * ANGLE_LIMIT);
    if s >= 8 {
        7
    } else {
        s
    }
}

/// The grid direction a look resolves to: the yaw sector picks one of
/// eight horizontal directions, the pitch one of three vertical buckets.
pub open spec fn spec_look_dir(look: Vec2) -> Vec3 {
    let s = spec_yaw_sector(look.x);
    Vec3 {
        x: if s == 0 || s == 1 || s == 7 {
            1
        } else if s == 3 || s == 4 || s == 5 {
            -1 as i64
        } else {
            0
        },
        y: if look.y > ANGLE_LIMIT / 3 {
            1
        } else if look.y < -(ANGLE_LIMIT / 3) {
            -1 as i64
        } else {
            0
        },
        z: if s == 1 || s == 2 || s == 3 {
            1
        } else if s == 5 || s == 6 || s == 7 {
            -1 as i64
        } else {
            0
        },
    }
}

/// The point the player's brush acts at: the feet corner displaced
/// [`BRUSH_REACH`] cells along the accumulated look direction.
pub open spec fn spec_aim_point(p: Player) -> Vec3 {
    let d = spec_look_dir(p.look);
    Vec3 {
        x: (p.entity.aabb.min.x + BRUSH_REACH * d.x) as i64,
        y: (p.entity.aabb.min.y + BRUSH_REACH * d.y) as i64,
        z: (p.entity.aabb.min.z + BRUSH_REACH * d.z) as i64,
    }
}

/// The finest-level grid cell the player's brush acts in (the cell the
/// player is looking at), meaningful only when [`spec_edit_valid`] holds.
pub open spec fn spec_edit_target(p: Player) -> Bounds {
    let a = spec_aim_point(p);
    Bounds { x: a.x as u32, y: a.y as u32, z: a.z as u32, lg_size: 0 }
}

/// A brush edit goes through: the player exists, the cell it looks at
/// lies on the voxel grid, and that cell lies inside the store.
pub open spec fn spec_edit_valid(s: Server, pid: PlayerId) -> bool {
    &&& spec_has_player(s.players@, pid)
    &&& ({
        let p = s.players@[spec_player_index(s.players@, pid)];
        let a = spec_aim_point(p);
        &&& 0 <= a.x < 0x4000_0000 && 0 <= a.y < 0x4000_0000 && 0 <= a.z < 0x4000_0000
        &&& spec_edit_target(p).wf()
        &&& spec_inside(spec_edit_target(p), s.octree.root_bounds())
    })
}

/// What a brush edit leaves behind: the player's standing cell regenerated
/// at the finest level with `mat`, and every client told with an
/// unsolicited `Updated` push; an invalid edit changes nothing.
pub open spec fn brush_edit_post(
    s0: Server,
    s1: Server,
    msgs: Seq<(ClientId, ServerToClient)>,
    tasks: Seq<(Bounds, u8)>,
    pid: PlayerId,
    mat: Voxel,
) -> bool {
    &&& tasks.len() == 0
    &&& if spec_edit_valid(s0, pid) {
        let c = spec_edit_target(s0.players@[spec_player_index(s0.players@, pid)]);
        &&& s1.octree.spec_get(c) == Some((0u8, mat))
        &&& s1.octree.root_bounds() == s0.octree.root_bounds()
        &&& forall|b2: Bounds|
            !spec_inside(b2, c) && !spec_inside(c, b2) ==> #[trigger] s1.octree.spec_get(b2)
                == s0.octree.spec_get(b2)
        &&& s1.clients@ == s0.clients@ && s1.players@ == s0.players@ && s1.tracker == s0.tracker
            && s1.sun == s0.sun && s1.next_client == s0.next_client && s1.next_player
            == s0.next_player
        &&& msgs.len() == s0.clients@.len()
        &&& forall|j: int|
            0 <= j < msgs.len() ==> (#[trigger] msgs[j]).0 == s0.clients@[j].id && (msgs[j].1
                matches ServerToClient::Voxels { voxels: vs, reason } && vs@ == seq![(c, mat)]
                && reason == VoxelReason::Updated)
    } else {
        s1 == s0 && msgs.len() == 0
    }
}

impl Server {
    /// Everything the dispatch relies on: sound octree and tracker, sound
    /// entities, lease ids handed out in increasing order below the
    /// counter, likewise player ids, and the sun inside its cycle.
    pub open spec fn wf(self) -> bool {
        &&& self.octree.wf()
        &&& self.octree.root_bounds().wf()
        &&& self.tracker.wf()
        &&& self.next_client >= 1
        &&& forall|i: int|
            0 <= i < self.clients@.len() ==> 1 <= (#[trigger] self.clients@[i]).id.0
                < self.next_client
        &&& forall|i: int, j: int|
            0 <= i < j < self.clients@.len() ==> (#[trigger] self.clients@[i]).id.0 < (
            #[trigger] self.clients@[j]).id.0
        &&& self.next_player >= 1
        &&& forall|i: int|
            0 <= i < self.players@.len() ==> 1 <= (#[trigger] self.players@[i]).id.0
                < self.next_player
        &&& forall|i: int, j: int|
            0 <= i < j < self.players@.len() ==> (#[trigger] self.players@[i]).id.0 < (
            #[trigger] self.players@[j]).id.0
        &&& forall|i: int| 0 <= i < self.players@.len() ==> (#[trigger] self.players@[i]).entity.wf()
        &&& forall|i: int|
            0 <= i < self.players@.len() ==> -ANGLE_LIMIT <= (#[trigger] self.players@[i]).look.x
                <= ANGLE_LIMIT && -ANGLE_LIMIT <= self.players@[i].look.y <= ANGLE_LIMIT
        &&& self.next_mob >= 1
        &&& forall|i: int|
            0 <= i < self.mobs@.len() ==> 1 <= (#[trigger] self.mobs@[i]).id.0 < self.next_mob
        &&& forall|i: int, j: int|
            0 <= i < j < self.mobs@.len() ==> (#[trigger] self.mobs@[i]).id.0 < (
            #[trigger] self.mobs@[j]).id.0
        &&& forall|i: int| 0 <= i < self.mobs@.len() ==> (#[trigger] self.mobs@[i]).entity.wf()
        &&& self.sun < SUN_CYCLE
    }

    /// A fresh server over the world region `world`: no leases, no
    /// players, no terrain generated, dawn.
    pub fn new(world: Bounds) -> (s: Server)
        requires
            world.wf(),
        ensures
            s.wf(),
            s.next_client == 1,
            s.next_player == 1,
            s.clients@.len() == 0,
            s.players@.len() == 0,
            s.mobs@.len() == 0,
            s.next_mob == 1,
            s.octree.root_bounds() == world,
            forall|t: Bounds| #[trigger] s.octree.spec_get(t) is None,
            s.tracker.model() == Seq::<(TerrainKey, Seq<Waiter>)>::empty(),
            s.sun == 0,
    {
        Server {
            next_client: 1,
            next_player: 1,
            clients: Vec::new(),
            players: Vec::new(),
            mobs: Vec::new(),
            next_mob: 1,
            octree: Octree::new(world),
            tracker: Tracker::new(),
            sun: 0,
        }
    }

    /// Spawns a mob at rest filling `aabb`; the host seeds the world with
    /// these at start.  A degenerate or out-of-world volume is refused.
    pub fn spawn_mob(&mut self, aabb: Aabb) -> (r: Option<MobId>)
        requires
            old(self).wf(),
        ensures
            final(self).wf(),
            final(self).clients@ == old(self).clients@,
            final(self).players@ == old(self).players@,
            final(self).octree == old(self).octree,
            final(self).tracker == old(self).tracker,
            final(self).sun == old(self).sun,
            final(self).next_client == old(self).next_client,
            final(self).next_player == old(self).next_player,
            if aabb.nonempty() && aabb.in_world() && old(self).next_mob < u32::MAX {
                let id = MobId(old(self).next_mob);
                &&& r == Some(id)
                &&& final(self).mobs@ == old(self).mobs@.push(
                    (Mob {
                        id,
                        entity: Entity {
                            aabb,
                            velocity: Vec3 { x: 0, y: 0, z: 0 },
                            accel: Vec3 { x: 0, y: 0, z: 0 },
                            jumping: false,
                        },
                    }),
                )
                &&& final(self).next_mob == old(self).next_mob + 1
            } else {
                r is None && *final(self) == *old(self)
            },
    {
        if self.next_mob == u32::MAX {
            return None;
        }
        let lim: i64 = crate::space::COORD_LIMIT;
        if !(aabb.min.x < aabb.max.x && aabb.min.y < aabb.max.y && aabb.min.z < aabb.max.z
            && -lim <= aabb.min.x && aabb.max.x <= lim && -lim <= aabb.min.y && aabb.max.y <= lim
            && -lim <= aabb.min.z && aabb.max.z <= lim) {
            return None;
        }
        let id = MobId(self.next_mob);
        self.mobs.push(Mob { id, entity: Entity::spawn(aabb) });
        self.next_mob = self.next_mob + 1;
        Some(id)
    }

    /// Whether `id` holds a lease.
    #[verifier::loop_isolation(false)]
    pub fn has_client(&self, id: ClientId) -> (r: bool)
        ensures
            r == spec_has_client(self.clients@, id),
    {
        let n: usize = self.clients.len();
        let mut i: usize = 0;
        while i < n
            invariant
                0 <= i <= n,
                forall|j: int| 0 <= j < i ==> (#[trigger] self.clients@[j]).id != id,
            decreases n - i,
        {
            if self.clients[i].id == id {
                return true;
            }
            i += 1;
        }
        false
    }

    /// One voxel request from the leased client `cid`: an already
    /// generated region is answered at once, with the request's own
    /// timestamp echoed so the client can correlate; otherwise `cid` joins
    /// the in-flight record for the key, and a generation task starts
    /// exactly when no work for it was in flight.
    pub fn request_voxel(&mut self, t: u64, cid: ClientId, b: Bounds) -> (out: Output)
        requires
            old(self).wf(),
            spec_has_client(old(self).clients@, cid),
        ensures
            final(self).wf(),
            final(self).clients@ == old(self).clients@,
            final(self).players@ == old(self).players@,
            final(self).mobs@ == old(self).mobs@,
            final(self).next_mob == old(self).next_mob,
            final(self).octree == old(self).octree,
            final(self).sun == old(self).sun,
            final(self).next_client == old(self).next_client,
            final(self).next_player == old(self).next_player,
            ({
                let (m2, replies, tasks) = spec_request_one(
                    old(self).octree,
                    old(self).tracker.model(),
                    b,
                    cid,
                    t,
                );
                &&& final(self).tracker.model() == m2
                &&& out.tasks@ == tasks
                &&& out.messages@.len() == replies
                &&& (replies == 1 ==> out.messages@[0].0 == cid && (out.messages@[0].1 matches
                    ServerToClient::Voxels { voxels: vs, reason } && (match old(self).octree.spec_get(b) {
                    Some((l, v)) => vs@ == seq![(b, v)],
                    None => false,
                }) && reason == (VoxelReason::Requested { at: t })))
            }),
    {
        let mut out = Output { messages: Vec::new(), tasks: Vec::new() };
        if !b.check_wf() {
            return out;
        }
        let root = self.octree.root();
        if !inside(&b, &root) {
            return out;
        }
        match self.octree.lookup(b) {
            Some((_l, v)) => {
                out.messages.push(
                    (
                        cid,
                        ServerToClient::Voxels {
                            voxels: vec![(b, v)],
                            reason: VoxelReason::Requested { at: t },
                        },
                    ),
                );
                proof {
                    assert(out.tasks@ =~= Seq::<(Bounds, u8)>::empty());
                }
            },
            None => {
                let spawn = self.tracker.request(
                    b,
                    b.lg_size,
                    cid,
                    VoxelReason::Requested { at: t },
                );
                if spawn {
                    out.tasks.push((b, b.lg_size));
                    proof {
                        assert(out.tasks@ =~= seq![(b, b.lg_size)]);
                    }
                } else {
                    proof {
                        assert(out.tasks@ =~= Seq::<(Bounds, u8)>::empty());
                    }
                }
            },
        }
        out
    }

    /// Folds a finished (or abandoned) generation task back in: if the key
    /// is still tracked the block is installed and every waiter is told,
    /// each with the reason it originally gave; a completion whose key was
    /// dropped in the meantime, or whose region does not fit the world, is
    /// discarded without a word.
    #[verifier::loop_isolation(false)]
    pub fn complete_generation(&mut self, b: Bounds, lod: u8, voxel: Voxel) -> (out: Output)
        requires
            old(self).wf(),
        ensures
            final(self).wf(),
            final(self).clients@ == old(self).clients@,
            final(self).players@ == old(self).players@,
            final(self).mobs@ == old(self).mobs@,
            final(self).next_mob == old(self).next_mob,
            final(self).sun == old(self).sun,
            final(self).next_client == old(self).next_client,
            final(self).next_player == old(self).next_player,
            out.tasks@.len() == 0,
            forall|b2: Bounds|
                !crate::octree::spec_inside(b2, b) && !crate::octree::spec_inside(b, b2)
                    ==> #[trigger] final(self).octree.spec_get(b2) == old(self).octree.spec_get(
                    b2),
            ({
                let k = (TerrainKey { bounds: b, lod });
                let m = old(self).tracker.model();
                let (m2, dr) = spec_complete(m, k);
                &&& final(self).tracker.model() == m2
                &&& if has_key(m, k) && b.wf() && spec_inside(b, old(self).octree.root_bounds()) {
                    let ws = waiters_of(m, k);
                    &&& (if spec_same_lod(old(self).octree.spec_get(b), lod) {
                        final(self).octree.arena() == old(self).octree.arena()
                    } else {
                        final(self).octree.spec_get(b) == Some((lod, voxel))
                    })
                    &&& final(self).octree.root_bounds() == old(self).octree.root_bounds()
                    &&& out.messages@.len() == ws.len()
                    &&& forall|j: int|
                        0 <= j < ws.len() ==> (#[trigger] out.messages@[j]).0 == ws[j].client && (
                        out.messages@[j].1 matches ServerToClient::Voxels { voxels: vs, reason }
                            && vs@ == seq![(b, voxel)] && reason == ws[j].reason)
                } else {
                    &&& final(self).octree == old(self).octree
                    &&& out.messages@.len() == 0
                }
            }),
    {
        let mut out = Output { messages: Vec::new(), tasks: Vec::new() };
        let drained = self.tracker.complete(b, lod);
        match drained {
            None => {
                proof {
                    assert(self.octree == old(self).octree);
                }
                out
            },
            Some(ws) => {
                if !b.check_wf() {
                    proof {
                        assert(self.octree == old(self).octree);
                    }
                    return out;
                }
                let root = self.octree.root();
                if !inside(&b, &root) {
                    proof {
                        assert(self.octree == old(self).octree);
                    }
                    return out;
                }
                let ghost oct_pre = self.octree;
                self.octree.insert_or_replace(b, lod, voxel);
                proof {
                    assert forall|b2: Bounds|
                        !crate::octree::spec_inside(b2, b) && !crate::octree::spec_inside(b, b2)
                            implies #[trigger] self.octree.spec_get(b2) == old(
                        self).octree.spec_get(b2) by {
                        assert(self.octree.spec_get(b2) == oct_pre.spec_get(b2));
                    }
                }
                let n: usize = ws.len();
                let mut i: usize = 0;
                while i < n
                    invariant
                        0 <= i <= n,
                        out.messages@.len() == i,
                        out.tasks@.len() == 0,
                        forall|j: int|
                            0 <= j < i ==> (#[trigger] out.messages@[j]).0 == ws@[j].client && (
                            out.messages@[j].1 matches ServerToClient::Voxels {
                                voxels: vs,
                                reason,
                            } && vs@ == seq![(b, voxel)] && reason == ws@[j].reason),
                    decreases n - i,
                {
                    out.messages.push(
                        (
                            ws[i].client,
                            ServerToClient::Voxels {
                                voxels: vec![(b, voxel)],
                                reason: ws[i].reason,
                            },
                        ),
                    );
                    i += 1;
                }
                out
            },
        }
    }

    /// Dispatches one inbound message.  The lease ordering rule runs
    /// through every arm: a message that names an unleased client, or a
    /// player nobody owns, changes nothing and answers nothing — it is
    /// discarded silently, never an error, so benign races cannot tear a
    /// connection down.  Only `Init` itself needs no lease, and it is
    /// answered with exactly one `LeaseId`.
    pub fn handle(&mut self, msg: ClientToServer) -> (out: Output)
        requires
            old(self).wf(),
        ensures
            final(self).wf(),
            final(self).mobs@ == old(self).mobs@,
            final(self).next_mob == old(self).next_mob,
            ({
                let s0 = *old(self);
                let s1 = *final(self);
                match msg {
                    ClientToServer::Init(addr) => if s0.next_client < u32::MAX {
                        let id = ClientId(s0.next_client);
                        &&& s1.clients@ == s0.clients@.push(Client { id, addr })
                        &&& s1.next_client == s0.next_client + 1
                        &&& s1.players@ == s0.players@ && s1.octree == s0.octree && s1.tracker
                            == s0.tracker && s1.sun == s0.sun && s1.next_player == s0.next_player
                        &&& out.messages@ == seq![(id, ServerToClient::LeaseId(id))]
                        &&& out.tasks@.len() == 0
                    } else {
                        s1 == s0 && out.messages@.len() == 0 && out.tasks@.len() == 0
                    },
                    ClientToServer::Ping(cid) => {
                        &&& s1 == s0
                        &&& out.tasks@.len() == 0
                        &&& out.messages@ == if spec_has_client(s0.clients@, cid) {
                            seq![(cid, ServerToClient::Ping)]
                        } else {
                            Seq::<(ClientId, ServerToClient)>::empty()
                        }
                    },
                    ClientToServer::AddPlayer(cid) => if spec_has_client(s0.clients@, cid)
                        && s0.next_player < u32::MAX {
                        let pid = PlayerId(s0.next_player);
                        let e = (Entity {
                            aabb: spec_spawn_aabb(),
                            velocity: Vec3 { x: 0, y: 0, z: 0 },
                            accel: Vec3 { x: 0, y: 0, z: 0 },
                            jumping: false,
                        });
                        &&& s1.players@ == s0.players@.push(
                            Player { id: pid, owner: cid, entity: e, look: Vec2 { x: 0, y: 0 } },
                        )
                        &&& s1.next_player == s0.next_player + 1
                        &&& s1.clients@ == s0.clients@ && s1.octree == s0.octree && s1.tracker
                            == s0.tracker && s1.sun == s0.sun && s1.next_client == s0.next_client
                        &&& out.messages@ == seq![
                            (cid, ServerToClient::PlayerAdded(pid, spec_spawn_aabb().min)),
                        ]
                        &&& out.tasks@.len() == 0
                    } else {
                        s1 == s0 && out.messages@.len() == 0 && out.tasks@.len() == 0
                    },
                    ClientToServer::Walk(pid, dv) => {
                        &&& out.messages@.len() == 0 && out.tasks@.len() == 0
                        &&& if spec_has_player(s0.players@, pid) && dv.is_velocity() {
                            let i = spec_player_index(s0.players@, pid);
                            let p = s0.players@[i];
                            let e2 = (Entity {
                                accel: spec_clamp_vel(
                                    p.entity.accel.x + dv.x,
                                    p.entity.accel.y + dv.y,
                                    p.entity.accel.z + dv.z,
                                ),
                                ..p.entity
                            });
                            &&& s1.players@ == s0.players@.update(i, (Player { entity: e2, ..p }))
                            &&& s1.clients@ == s0.clients@ && s1.octree == s0.octree && s1.tracker
                                == s0.tracker && s1.sun == s0.sun && s1.next_client
                                == s0.next_client && s1.next_player == s0.next_player
                        } else {
                            s1 == s0
                        }
                    },
                    ClientToServer::RotatePlayer(pid, r) => {
                        &&& out.messages@.len() == 0 && out.tasks@.len() == 0
                        &&& if spec_has_player(s0.players@, pid) && -ANGLE_LIMIT <= r.x
                            <= ANGLE_LIMIT && -ANGLE_LIMIT <= r.y <= ANGLE_LIMIT {
                            let i = spec_player_index(s0.players@, pid);
                            let p = s0.players@[i];
                            let look2 = (Vec2 {
                                x: spec_clamp(p.look.x + r.x, ANGLE_LIMIT as int) as i64,
                                y: spec_clamp(p.look.y + r.y, ANGLE_LIMIT as int) as i64,
                            });
                            s1.players@ == s0.players@.update(i, (Player { look: look2, ..p }))
                                && s1.clients@ == s0.clients@ && s1.octree == s0.octree
                                && s1.tracker == s0.tracker && s1.sun == s0.sun && s1.next_client
                                == s0.next_client && s1.next_player == s0.next_player
                        } else {
                            s1 == s0
                        }
                    },
                    ClientToServer::StartJump(pid) => {
                        &&& out.messages@.len() == 0 && out.tasks@.len() == 0
                        &&& if spec_has_player(s0.players@, pid) {
                            let i = spec_player_index(s0.players@, pid);
                            let p = s0.players@[i];
                            &&& s1.players@.len() == s0.players@.len()
                            &&& forall|j: int|
                                0 <= j < s0.players@.len() && j != i ==> s1.players@[j]
                                    == s0.players@[j]
                            &&& s1.players@[i].id == p.id && s1.players@[i].owner == p.owner
                                && s1.players@[i].look == p.look
                            &&& s1.players@[i].entity.aabb == p.entity.aabb
                            &&& s1.players@[i].entity.accel == p.entity.accel
                            &&& s1.players@[i].entity.jumping
                            &&& s1.players@[i].entity.velocity == if spec_on_ground(
                                s0.octree,
                                p.entity.aabb,
                            ) {
                                (Vec3 {
                                    x: p.entity.velocity.x,
                                    y: JUMP_SPEED,
                                    z: p.entity.velocity.z,
                                })
                            } else {
                                p.entity.velocity
                            }
                            &&& s1.clients@ == s0.clients@ && s1.octree == s0.octree && s1.tracker
                                == s0.tracker && s1.sun == s0.sun && s1.next_client
                                == s0.next_client && s1.next_player == s0.next_player
                        } else {
                            s1 == s0
                        }
                    },
                    ClientToServer::StopJump(pid) => {
                        &&& out.messages@.len() == 0 && out.tasks@.len() == 0
                        &&& if spec_has_player(s0.players@, pid) {
                            let i = spec_player_index(s0.players@, pid);
                            let p = s0.players@[i];
                            s1.players@ == s0.players@.update(
                                i,
                                (Player { entity: Entity { jumping: false, ..p.entity }, ..p }),
                            ) && s1.clients@ == s0.clients@ && s1.octree == s0.octree
                                && s1.tracker == s0.tracker && s1.sun == s0.sun && s1.next_client
                                == s0.next_client && s1.next_player == s0.next_player
                        } else {
                            s1 == s0
                        }
                    },
                    ClientToServer::RequestVoxels { time_requested_ns, client_id, voxels } => {
                        &&& s1.clients@ == s0.clients@ && s1.players@ == s0.players@ && s1.octree
                            == s0.octree && s1.sun == s0.sun && s1.next_client == s0.next_client
                            && s1.next_player == s0.next_player
                        &&& if spec_has_client(s0.clients@, client_id) {
                            let (m2, replies, tasks) = spec_request_from(
                                s0.octree,
                                s0.tracker.model(),
                                voxels@,
                                0,
                                client_id,
                                time_requested_ns,
                            );
                            &&& s1.tracker.model() == m2
                            &&& out.messages@.len() == replies
                            &&& out.tasks@ == tasks
                            &&& forall|j: int|
                                0 <= j < out.messages@.len() ==> (#[trigger] out.messages@[j]).0
                                    == client_id
                        } else {
                            s1 == s0 && out.messages@.len() == 0 && out.tasks@.len() == 0
                        }
                    },
                    ClientToServer::Add(pid) => brush_edit_post(
                        s0, s1, out.messages@, out.tasks@, pid, Voxel::Volume(1),
                    ),
                    ClientToServer::Remove(pid) => brush_edit_post(
                        s0, s1, out.messages@, out.tasks@, pid, Voxel::Volume(0),
                    ),
                }
            }),
    {
        match msg {
            ClientToServer::Init(addr) => self.do_init(addr),
            ClientToServer::Ping(cid) => self.do_ping(cid),
            ClientToServer::AddPlayer(cid) => self.do_add_player(cid),
            ClientToServer::Walk(pid, dv) => self.do_walk(pid, dv),
            ClientToServer::RotatePlayer(pid, r) => self.do_rotate(pid, r),
            ClientToServer::StartJump(pid) => self.do_start_jump(pid),
            ClientToServer::StopJump(pid) => self.do_stop_jump(pid),
            ClientToServer::RequestVoxels { time_requested_ns, client_id, voxels } => self
                .do_request_voxels(time_requested_ns, client_id, voxels),
            ClientToServer::Add(pid) => self.do_brush(pid, Voxel::Volume(1)),
            ClientToServer::Remove(pid) => self.do_brush(pid, Voxel::Volume(0)),
        }
    }

    /// The index of player `id`, if it exists.
    #[verifier::loop_isolation(false)]
    fn find_player(&self, id: PlayerId) -> (r: Option<usize>)
        requires
            self.wf(),
        ensures
            match r {
                Some(i) => i < self.players@.len() && self.players@[i as int].id == id && i
                    == spec_player_index(self.players@, id),
                None => !spec_has_player(self.players@, id),
            },
    {
        let n: usize = self.players.len();
        let mut i: usize = 0;
        while i < n
            invariant
                0 <= i <= n,
                forall|j: int| 0 <= j < i ==> (#[trigger] self.players@[j]).id != id,
            decreases n - i,
        {
            if self.players[i].id == id {
                proof {
                    let w = spec_player_index(self.players@, id);
                    assert(self.players@[i as int].id == id);
                    if w != i {
                        assert(self.players@[w].id == id);
                        if w < i {
                            assert(self.players@[w].id != id);
                        } else {
                            assert(self.players@[w].id.0 > self.players@[i as int].id.0);
                        }
                    }
                }
                return Some(i);
            }
            i += 1;
        }
        None
    }

    /// One fixed-rate simulation step.  Queued intents have already been
    /// folded in by [`Server::handle`]; this advances every player's
    /// physics against the generated terrain, reports the tick's
    /// collisions against terrain and against the other entities, runs the
    /// level-of-detail policy over the generated leaves (regeneration
    /// requests are deduplicated and fire-and-forget; every leased client
    /// joins each policy-driven request as a waiter, so all of them receive
    /// the `Updated` push on completion), advances the sun, and flushes one
    /// batch of messages: first a position update per player, then one
    /// `UpdateMob` per mob per client, then the terrain-collision reports,
    /// then the entity-collision reports, then the sun for every client.
    #[verifier::loop_isolation(false)]
    #[verifier::rlimit(60)]
    pub fn tick(&mut self, dt: u32) -> (out: Output)
        requires
            old(self).wf(),
        ensures
            final(self).wf(),
            final(self).clients@ == old(self).clients@,
            final(self).octree == old(self).octree,
            final(self).next_client == old(self).next_client,
            final(self).next_player == old(self).next_player,
            final(self).sun == (old(self).sun + dt) as int % (SUN_CYCLE as int),
            final(self).players@.len() == old(self).players@.len(),
            forall|i: int|
                0 <= i < old(self).players@.len() ==> {
                    let p0 = #[trigger] old(self).players@[i];
                    let p1 = final(self).players@[i];
                    &&& p1.id == p0.id && p1.owner == p0.owner && p1.look == p0.look
                    &&& p1.entity.aabb == spec_stepped_aabb(p0.entity)
                    &&& p1.entity.accel == (Vec3 { x: 0, y: 0, z: 0 })
                    &&& p1.entity.jumping == p0.entity.jumping
                },
            final(self).mobs@.len() == old(self).mobs@.len(),
            final(self).next_mob == old(self).next_mob,
            forall|i: int|
                0 <= i < old(self).mobs@.len() ==> {
                    let m0 = #[trigger] old(self).mobs@[i];
                    let m1 = final(self).mobs@[i];
                    &&& m1.id == m0.id
                    &&& m1.entity.aabb == spec_stepped_aabb(m0.entity)
                    &&& m1.entity.accel == (Vec3 { x: 0, y: 0, z: 0 })
                },
            out.messages@.len() >= old(self).players@.len() + old(self).clients@.len(),
            forall|i: int|
                0 <= i < old(self).players@.len() ==> out.messages@[i] == (
                    (#[trigger] old(self).players@[i]).owner,
                    ServerToClient::UpdatePlayer(
                        old(self).players@[i].id,
                        final(self).players@[i].entity.aabb,
                    ),
                ),
            forall|j: int|
                0 <= j < old(self).clients@.len() ==> out.messages@[out.messages@.len() - old(
                    self,
                ).clients@.len() + j] == (
                    (#[trigger] old(self).clients@[j]).id,
                    ServerToClient::UpdateSun(
                        ((old(self).sun + dt) as int % (SUN_CYCLE as int)) as u32,
                    ),
                ),
            forall|j: int|
                old(self).players@.len() <= j < out.messages@.len() - old(self).clients@.len()
                    ==> is_mob_report(*old(self), final(self).mobs@, #[trigger] out.messages@[j])
                    || is_collision_report(*old(self), out.messages@[j]) || is_misc_report(
                    *old(self),
                    final(self).players@,
                    final(self).mobs@,
                    out.messages@[j],
                ),
            forall|j: int|
                0 <= j < out.tasks@.len() ==> (#[trigger] out.tasks@[j]).0.wf() && out.tasks@[j].1
                    < LOD_COUNT && spec_policy_changes(
                    old(self).octree,
                    final(self).players@,
                    out.tasks@[j].0,
                ) && out.tasks@[j].1 == spec_policy_target(
                    old(self).octree,
                    final(self).players@,
                    out.tasks@[j].0,
                ),
            forall|kk: TerrainKey|
                has_key(old(self).tracker.model(), kk) ==> #[trigger] has_key(
                    final(self).tracker.model(),
                    kk,
                ),
            forall|i2: int|
                0 <= i2 < old(self).players@.len() && spec_hits_world(
                    old(self).octree,
                    spec_stepped_aabb((#[trigger] old(self).players@[i2]).entity),
                ) ==> out.messages@.contains(
                    (
                        old(self).players@[i2].owner,
                        ServerToClient::Collision(Collision::PlayerTerrain(
                            old(self).players@[i2].id,
                        )),
                    ),
                ),
            forall|i2: int|
                0 <= i2 < old(self).players@.len() && spec_hits_entities(
                    final(self).players@,
                    final(self).mobs@,
                    i2,
                ) ==> out.messages@.contains(
                    (
                        (#[trigger] old(self).players@[i2]).owner,
                        ServerToClient::Collision(Collision::PlayerMisc(
                            old(self).players@[i2].id,
                        )),
                    ),
                ),
            forall|mi2: int, ci2: int|
                0 <= mi2 < old(self).mobs@.len() && 0 <= ci2 < old(self).clients@.len()
                    ==> out.messages@.contains(
                    (
                        (#[trigger] old(self).clients@[ci2]).id,
                        ServerToClient::UpdateMob(
                            (#[trigger] old(self).mobs@[mi2]).id,
                            final(self).mobs@[mi2].entity.aabb,
                        ),
                    ),
                ),
            old(self).players@.len() > 0 && old(self).clients@.len() > 0 ==> forall|b: Bounds|
                (#[trigger] old(self).octree.spec_get(b)) is Some && spec_policy_changes(
                    old(self).octree,
                    final(self).players@,
                    b,
                ) ==> has_key(
                    final(self).tracker.model(),
                    (TerrainKey {
                        bounds: b,
                        lod: spec_policy_target(old(self).octree, final(self).players@, b),
                    }),
                ),
    {
        let mut out = Output { messages: Vec::new(), tasks: Vec::new() };
        let terrain = self.terrain_aabbs();
        let mut collisions: Vec<usize> = Vec::new();
        let n: usize = self.players.len();
        let mut i: usize = 0;
        while i < n
            invariant
                0 <= i <= n,
                n == self.players@.len(),
                self.players@.len() == old(self).players@.len(),
                self.clients@ == old(self).clients@,
                self.mobs@ == old(self).mobs@,
                self.next_mob == old(self).next_mob,
                self.octree == old(self).octree,
                self.tracker == old(self).tracker,
                self.sun == old(self).sun,
                self.next_client == old(self).next_client,
                self.next_player == old(self).next_player,
                self.wf(),
                forall|j: int| i <= j < n ==> self.players@[j] == old(self).players@[j],
                forall|j: int|
                    0 <= j < i ==> {
                        let p0 = #[trigger] old(self).players@[j];
                        let p1 = self.players@[j];
                        &&& p1.id == p0.id && p1.owner == p0.owner && p1.look == p0.look
                        &&& p1.entity.aabb == spec_stepped_aabb(p0.entity)
                        &&& p1.entity.accel == (Vec3 { x: 0, y: 0, z: 0 })
                        &&& p1.entity.jumping == p0.entity.jumping
                    },
                out.messages@.len() == i,
                out.tasks@.len() == 0,
                forall|j: int|
                    0 <= j < i ==> out.messages@[j] == (
                        (#[trigger] old(self).players@[j]).owner,
                        ServerToClient::UpdatePlayer(
                            old(self).players@[j].id,
                            self.players@[j].entity.aabb,
                        ),
                    ),
                forall|k: int| 0 <= k < collisions@.len() ==> 0 <= #[trigger] collisions@[k] < i,
                forall|k: int|
                    0 <= k < collisions@.len() ==> crate::physics::spec_hits_terrain(
                        self.players@[(#[trigger] collisions@[k]) as int].entity.aabb,
                        terrain@,
                    ),
                forall|j: int|
                    0 <= j < i && crate::physics::spec_hits_terrain(
                        (#[trigger] self.players@[j]).entity.aabb,
                        terrain@,
                    ) ==> exists|k: int| 0 <= k < collisions@.len() && collisions@[k] == j,
            decreases n - i,
        {
            let ghost coll_pre = collisions@;
            let mut p = self.players[i];
            let hit = p.entity.step(&terrain);
            self.players.set(i, p);
            out.messages.push((p.owner, ServerToClient::UpdatePlayer(p.id, p.entity.aabb)));
            if hit {
                collisions.push(i);
            }
            proof {
                assert forall|j: int|
                    0 <= j < i + 1 && crate::physics::spec_hits_terrain(
                        (#[trigger] self.players@[j]).entity.aabb,
                        terrain@,
                    ) implies exists|k: int|
                    0 <= k < collisions@.len() && collisions@[k] == j by {
                    if j == i as int {
                        assert(hit == crate::physics::spec_hits_terrain(
                            self.players@[i as int].entity.aabb,
                            terrain@,
                        ));
                        assert(collisions@[collisions@.len() - 1] == i);
                    } else {
                        let k = choose|k: int| 0 <= k < coll_pre.len() && coll_pre[k] == j;
                        assert(collisions@[k] == j);
                    }
                }
            }
            i += 1;
        }
        let ghost players_stepped = self.players@;
        let ghost n_upd = out.messages@.len();
        let nm: usize = self.mobs.len();
        let mut mi: usize = 0;
        while mi < nm
            invariant
                0 <= mi <= nm,
                nm == self.mobs@.len(),
                self.mobs@.len() == old(self).mobs@.len(),
                self.next_mob == old(self).next_mob,
                self.wf(),
                self.clients@ == old(self).clients@,
                self.octree == old(self).octree,
                self.tracker == old(self).tracker,
                self.sun == old(self).sun,
                self.next_client == old(self).next_client,
                self.next_player == old(self).next_player,
                self.players@ == players_stepped,
                forall|j: int| mi <= j < nm ==> self.mobs@[j] == old(self).mobs@[j],
                forall|j: int|
                    0 <= j < mi ==> {
                        let m0 = #[trigger] old(self).mobs@[j];
                        let m1 = self.mobs@[j];
                        &&& m1.id == m0.id
                        &&& m1.entity.aabb == spec_stepped_aabb(m0.entity)
                        &&& m1.entity.accel == (Vec3 { x: 0, y: 0, z: 0 })
                    },
            decreases nm - mi,
        {
            proof {
                assert(self.mobs@[mi as int] == old(self).mobs@[mi as int]);
            }
            let ghost mobs_pre = self.mobs@;
            let ghost m_pre = self.mobs@[mi as int];
            let mut m = self.mobs[mi];
            m.entity.step(&terrain);
            self.mobs.set(mi, m);
            proof {
                assert(self.mobs@[mi as int].id == m_pre.id);
                assert(self.mobs@[mi as int].entity.aabb == spec_stepped_aabb(m_pre.entity));
                assert(self.mobs@[mi as int].entity.accel == (Vec3 { x: 0, y: 0, z: 0 }));
                assert forall|j: int|
                    0 <= j < mi + 1 implies {
                    let m0 = #[trigger] old(self).mobs@[j];
                    let m1 = self.mobs@[j];
                    &&& m1.id == m0.id
                    &&& m1.entity.aabb == spec_stepped_aabb(m0.entity)
                    &&& m1.entity.accel == (Vec3 { x: 0, y: 0, z: 0 })
                } by {
                    if j < mi {
                        assert(self.mobs@[j] == mobs_pre[j]);
                    }
                }
            }
            mi += 1;
        }
        let ghost mobs_stepped = self.mobs@;
        let ncl0: usize = self.clients.len();
        let mut mri: usize = 0;
        while mri < nm
            invariant
                0 <= mri <= nm,
                nm == self.mobs@.len(),
                ncl0 == self.clients@.len(),
                out.messages@.len() == n_upd + mri * ncl0,
                out.tasks@.len() == 0,
                forall|mi2: int, ci2: int|
                    0 <= mi2 < mri && 0 <= ci2 < ncl0 ==> out.messages@[n_upd + mi2 * ncl0 + ci2]
                        == (
                        (#[trigger] old(self).clients@[ci2]).id,
                        ServerToClient::UpdateMob(
                            (#[trigger] old(self).mobs@[mi2]).id,
                            mobs_stepped[mi2].entity.aabb,
                        ),
                    ),
                forall|j: int|
                    0 <= j < n ==> out.messages@[j] == (
                        (#[trigger] old(self).players@[j]).owner,
                        ServerToClient::UpdatePlayer(
                            old(self).players@[j].id,
                            self.players@[j].entity.aabb,
                        ),
                    ),
                forall|j: int|
                    n_upd <= j < out.messages@.len() ==> is_mob_report(
                        *old(self),
                        mobs_stepped,
                        #[trigger] out.messages@[j],
                    ),
            decreases nm - mri,
        {
            let mob = self.mobs[mri];
            let mut ci0: usize = 0;
            while ci0 < ncl0
                invariant
                    0 <= ci0 <= ncl0,
                    0 <= mri < nm,
                    nm == self.mobs@.len(),
                    ncl0 == self.clients@.len(),
                    mob == self.mobs@[mri as int],
                    out.messages@.len() == n_upd + mri * ncl0 + ci0,
                    out.tasks@.len() == 0,
                    forall|mi2: int, ci2: int|
                        0 <= mi2 < mri && 0 <= ci2 < ncl0 ==> out.messages@[n_upd + mi2 * ncl0
                            + ci2] == (
                            (#[trigger] old(self).clients@[ci2]).id,
                            ServerToClient::UpdateMob(
                                (#[trigger] old(self).mobs@[mi2]).id,
                                mobs_stepped[mi2].entity.aabb,
                            ),
                        ),
                    forall|ci2: int|
                        0 <= ci2 < ci0 ==> out.messages@[n_upd + mri * ncl0 + ci2] == (
                            (#[trigger] old(self).clients@[ci2]).id,
                            ServerToClient::UpdateMob(
                                old(self).mobs@[mri as int].id,
                                mobs_stepped[mri as int].entity.aabb,
                            ),
                        ),
                    forall|j: int|
                        0 <= j < n ==> out.messages@[j] == (
                            (#[trigger] old(self).players@[j]).owner,
                            ServerToClient::UpdatePlayer(
                                old(self).players@[j].id,
                                self.players@[j].entity.aabb,
                            ),
                        ),
                    forall|j: int|
                        n_upd <= j < out.messages@.len() ==> is_mob_report(
                            *old(self),
                            mobs_stepped,
                            #[trigger] out.messages@[j],
                        ),
                decreases ncl0 - ci0,
            {
                let ghost msgs_pre_push = out.messages@;
                out.messages.push(
                    (self.clients[ci0].id, ServerToClient::UpdateMob(mob.id, mob.entity.aabb)),
                );
                proof {
                    assert forall|mi2: int, ci2: int|
                        0 <= mi2 < mri && 0 <= ci2 < ncl0 implies out.messages@[n_upd + mi2 * ncl0
                        + ci2] == (
                        (#[trigger] old(self).clients@[ci2]).id,
                        ServerToClient::UpdateMob(
                            (#[trigger] old(self).mobs@[mi2]).id,
                            mobs_stepped[mi2].entity.aabb,
                        ),
                    ) by {
                        lemma_row_index_bound(mi2, ci2, mri as int, ncl0 as int);
                        assert(out.messages@[n_upd + mi2 * ncl0 + ci2] == msgs_pre_push[n_upd + mi2
                            * ncl0 + ci2]);
                    }
                }
                proof {
                    assert(old(self).mobs@[mri as int].id == mob.id);
                    assert(mobs_stepped[mri as int].entity.aabb == mob.entity.aabb);
                    assert(is_mob_report(
                        *old(self),
                        mobs_stepped,
                        out.messages@[out.messages@.len() - 1],
                    ));
                }
                ci0 += 1;
            }
            proof {
                assert((mri + 1) * ncl0 == mri * ncl0 + ncl0) by (nonlinear_arith);
            }
            mri += 1;
        }
        let ghost n_rep = out.messages@.len();
        let ghost msgs_rep = out.messages@;
        let nc: usize = collisions.len();
        let mut k: usize = 0;
        while k < nc
            invariant
                0 <= k <= nc,
                out.messages@.len() == n_rep + k,
                out.tasks@.len() == 0,
                forall|j: int| 0 <= j < n_rep ==> out.messages@[j] == msgs_rep[j],
                forall|j: int|
                    0 <= j < n ==> out.messages@[j] == (
                        (#[trigger] old(self).players@[j]).owner,
                        ServerToClient::UpdatePlayer(
                            old(self).players@[j].id,
                            self.players@[j].entity.aabb,
                        ),
                    ),
                forall|j: int|
                    n_upd <= j < n_rep ==> is_mob_report(
                        *old(self),
                        mobs_stepped,
                        #[trigger] out.messages@[j],
                    ),
                forall|kk: int|
                    0 <= kk < k ==> out.messages@[n_rep + kk] == (
                        old(self).players@[(#[trigger] collisions@[kk]) as int].owner,
                        ServerToClient::Collision(Collision::PlayerTerrain(
                            old(self).players@[collisions@[kk] as int].id,
                        )),
                    ),
            decreases nc - k,
        {
            let ci2 = collisions[k];
            let p = self.players[ci2];
            out.messages.push((p.owner, ServerToClient::Collision(Collision::PlayerTerrain(p.id))));
            k += 1;
        }
        let ghost n_tc = out.messages@.len();
        let ghost msgs_tc = out.messages@;
        let mut misc: Vec<usize> = Vec::new();
        let npl: usize = self.players.len();
        let mut pi2: usize = 0;
        while pi2 < npl
            invariant
                0 <= pi2 <= npl,
                npl == self.players@.len(),
                forall|k2: int| 0 <= k2 < misc@.len() ==> 0 <= #[trigger] misc@[k2] < pi2,
                forall|k2: int|
                    0 <= k2 < misc@.len() ==> spec_hits_entities(
                        self.players@,
                        self.mobs@,
                        (#[trigger] misc@[k2]) as int,
                    ),
                forall|j: int|
                    0 <= j < pi2 && #[trigger] spec_hits_entities(self.players@, self.mobs@, j)
                        ==> exists|k2: int| 0 <= k2 < misc@.len() && misc@[k2] == j,
            decreases npl - pi2,
        {
            let ghost misc_pre = misc@;
            if self.hits_other_entities(pi2) {
                misc.push(pi2);
            }
            proof {
                assert forall|j: int|
                    0 <= j < pi2 + 1 && #[trigger] spec_hits_entities(
                        self.players@,
                        self.mobs@,
                        j,
                    ) implies exists|k2: int|
                    0 <= k2 < misc@.len() && misc@[k2] == j by {
                    if j == pi2 as int {
                        assert(misc@[misc@.len() - 1] == pi2);
                    } else {
                        let k2 = choose|k2: int| 0 <= k2 < misc_pre.len() && misc_pre[k2] == j;
                        assert(misc@[k2] == j);
                    }
                }
            }
            pi2 += 1;
        }
        let nmc: usize = misc.len();
        let mut mk: usize = 0;
        while mk < nmc
            invariant
                0 <= mk <= nmc,
                nmc == misc@.len(),
                out.messages@.len() == n_tc + mk,
                out.tasks@.len() == 0,
                forall|j: int| 0 <= j < n_tc ==> out.messages@[j] == msgs_tc[j],
                forall|kk: int|
                    0 <= kk < mk ==> out.messages@[n_tc + kk] == (
                        old(self).players@[(#[trigger] misc@[kk]) as int].owner,
                        ServerToClient::Collision(Collision::PlayerMisc(
                            old(self).players@[misc@[kk] as int].id,
                        )),
                    ),
            decreases nmc - mk,
        {
            let mi3 = misc[mk];
            let p = self.players[mi3];
            out.messages.push((p.owner, ServerToClient::Collision(Collision::PlayerMisc(p.id))));
            mk += 1;
        }
        let ghost players_snap = self.players@;
        let ghost msgs_snap = out.messages@;
        if self.players.len() > 0 && self.clients.len() > 0 {
            let mut positions: Vec<Vec3> = Vec::new();
            let np: usize = self.players.len();
            let mut pi: usize = 0;
            while pi < np
                invariant
                    0 <= pi <= np,
                    np == self.players@.len(),
                    positions@.len() == pi,
                    forall|j: int| 0 <= j < pi ==> (#[trigger] positions@[j]).in_world(),
                    forall|j: int|
                        0 <= j < pi ==> #[trigger] positions@[j] == self.players@[j]
                            .entity.aabb.min,
                decreases np - pi,
            {
                positions.push(self.players[pi].entity.aabb.min);
                pi += 1;
            }
            proof {
                assert(positions@ =~= spec_positions(self.players@));
            }
            let leaves = self.octree.generated_leaves();
            let nl_count: usize = leaves.len();
            let mut li: usize = 0;
            while li < nl_count
                invariant
                    0 <= li <= nl_count,
                    nl_count == leaves@.len(),
                    forall|j: int| 0 <= j < leaves@.len() ==> (#[trigger] leaves@[j]).0.wf(),
                    forall|j: int| 0 <= j < positions@.len() ==> (
                    #[trigger] positions@[j]).in_world(),
                    self.wf(),
                    self.clients@ == old(self).clients@,
                    self.octree == old(self).octree,
                    self.sun == old(self).sun,
                    self.next_client == old(self).next_client,
                    self.next_player == old(self).next_player,
                    self.players@ == players_snap,
                    self.mobs@ == mobs_stepped,
                    self.next_mob == old(self).next_mob,
                    out.messages@ == msgs_snap,
                    forall|kk: TerrainKey|
                        has_key(old(self).tracker.model(), kk) ==> #[trigger] has_key(
                            self.tracker.model(),
                            kk,
                        ),
                    forall|j: int|
                        0 <= j < out.tasks@.len() ==> (#[trigger] out.tasks@[j]).0.wf()
                            && out.tasks@[j].1 < LOD_COUNT && spec_policy_changes(
                            old(self).octree,
                            players_snap,
                            out.tasks@[j].0,
                        ) && out.tasks@[j].1 == spec_policy_target(
                            old(self).octree,
                            players_snap,
                            out.tasks@[j].0,
                        ),
                    positions@ == spec_positions(players_snap),
                    forall|j: int|
                        0 <= j < leaves@.len() ==> self.octree.spec_get(
                            (#[trigger] leaves@[j]).0) == Some((leaves@[j].1, leaves@[j].2)),
                    forall|jj: int|
                        0 <= jj < li && spec_policy_changes(
                            old(self).octree,
                            players_snap,
                            (#[trigger] leaves@[jj]).0,
                        ) ==> has_key(
                            self.tracker.model(),
                            (TerrainKey {
                                bounds: leaves@[jj].0,
                                lod: spec_policy_target(
                                    old(self).octree,
                                    players_snap,
                                    leaves@[jj].0,
                                ),
                            }),
                        ),
                decreases nl_count - li,
            {
                let leaf = leaves[li];
                let a = leaf.0.to_aabb();
                let center = Vec3 {
                    x: a.min.x + (a.max.x - a.min.x) / 2,
                    y: a.min.y + (a.max.y - a.min.y) / 2,
                    z: a.min.z + (a.max.z - a.min.z) / 2,
                };
                let d = nearest_distance(&positions, center);
                let cur: u8 = if leaf.1 < LOD_COUNT {
                    leaf.1
                } else {
                    LOD_COUNT - 1
                };
                let nl = update_lod(cur, d);
                proof {
                    assert(center == spec_centroid(leaf.0));
                    assert(cur == spec_cap_lod(leaf.1));
                    assert(self.octree.spec_get(leaf.0) == Some((leaf.1, leaf.2)));
                    assert(nl == spec_policy_target(old(self).octree, players_snap, leaf.0));
                }
                if nl != cur {
                    let ncl2: usize = self.clients.len();
                    let mut ci2: usize = 0;
                    while ci2 < ncl2
                        invariant
                            0 <= ci2 <= ncl2,
                            ncl2 == self.clients@.len(),
                            0 <= li < nl_count,
                            leaf == leaves@[li as int],
                            nl == spec_policy_target(old(self).octree, players_snap, leaf.0),
                            nl != spec_cap_lod(leaf.1),
                            nl < LOD_COUNT,
                            leaf.0.wf(),
                            self.wf(),
                            self.clients@ == old(self).clients@,
                            self.octree == old(self).octree,
                            self.sun == old(self).sun,
                            self.next_client == old(self).next_client,
                            self.next_player == old(self).next_player,
                            self.players@ == players_snap,
                            self.mobs@ == mobs_stepped,
                            self.next_mob == old(self).next_mob,
                            out.messages@ == msgs_snap,
                            forall|kk: TerrainKey|
                                has_key(old(self).tracker.model(), kk) ==> #[trigger] has_key(
                                    self.tracker.model(),
                                    kk,
                                ),
                            forall|j: int|
                                0 <= j < out.tasks@.len() ==> (#[trigger] out.tasks@[j]).0.wf()
                                    && out.tasks@[j].1 < LOD_COUNT && spec_policy_changes(
                                    old(self).octree,
                                    players_snap,
                                    out.tasks@[j].0,
                                ) && out.tasks@[j].1 == spec_policy_target(
                                    old(self).octree,
                                    players_snap,
                                    out.tasks@[j].0,
                                ),
                            forall|jj: int|
                                0 <= jj < li && spec_policy_changes(
                                    old(self).octree,
                                    players_snap,
                                    (#[trigger] leaves@[jj]).0,
                                ) ==> has_key(
                                    self.tracker.model(),
                                    (TerrainKey {
                                        bounds: leaves@[jj].0,
                                        lod: spec_policy_target(
                                            old(self).octree,
                                            players_snap,
                                            leaves@[jj].0,
                                        ),
                                    }),
                                ),
                            ci2 >= 1 ==> has_key(
                                self.tracker.model(),
                                (TerrainKey { bounds: leaf.0, lod: nl }),
                            ),
                        decreases ncl2 - ci2,
                    {
                        let waiter = self.clients[ci2].id;
                        let ghost pre_m = self.tracker.model();
                        let spawn = self.tracker.request(
                            leaf.0,
                            nl,
                            waiter,
                            VoxelReason::Updated,
                        );
                        proof {
                            crate::tracker::lemma_request_effect(
                                pre_m,
                                (TerrainKey { bounds: leaf.0, lod: nl }),
                                (Waiter { client: waiter, reason: VoxelReason::Updated }),
                            );
                        }
                        if spawn {
                            out.tasks.push((leaf.0, nl));
                        }
                        ci2 += 1;
                    }
                }
                li += 1;
            }
            proof {
                assert forall|b: Bounds|
                    (#[trigger] old(self).octree.spec_get(b)) is Some && spec_policy_changes(
                        old(self).octree,
                        players_snap,
                        b,
                    ) implies has_key(
                    self.tracker.model(),
                    (TerrainKey {
                        bounds: b,
                        lod: spec_policy_target(old(self).octree, players_snap, b),
                    }),
                ) by {
                    let e = found_entry(old(self).octree.arena(), 0, b);
                    assert(leaves@.contains(e));
                    let jj = choose|jj: int| 0 <= jj < leaves@.len() && leaves@[jj] == e;
                    assert(leaves@[jj].0 == b);
                }
            }
        }
        let newsun: u32 = (((self.sun as u64) + (dt as u64)) % (SUN_CYCLE as u64)) as u32;
        self.sun = newsun;
        let ghost n_mid = out.messages@.len();
        let ghost msgs_mid = out.messages@;
        let ncl: usize = self.clients.len();
        let mut ci: usize = 0;
        while ci < ncl
            invariant
                0 <= ci <= ncl,
                ncl == self.clients@.len(),
                out.messages@.len() == n_mid + ci,
                forall|j: int| 0 <= j < n_mid ==> out.messages@[j] == msgs_mid[j],
                forall|j: int|
                    n_mid <= j < out.messages@.len() ==> out.messages@[j] == (
                        (#[trigger] old(self).clients@[(j - n_mid) as int]).id,
                        ServerToClient::UpdateSun(newsun),
                    ),
                forall|j: int|
                    0 <= j < out.tasks@.len() ==> (#[trigger] out.tasks@[j]).0.wf()
                        && out.tasks@[j].1 < LOD_COUNT && spec_policy_changes(
                        old(self).octree,
                        players_snap,
                        out.tasks@[j].0,
                    ) && out.tasks@[j].1 == spec_policy_target(
                        old(self).octree,
                        players_snap,
                        out.tasks@[j].0,
                    ),
            decreases ncl - ci,
        {
            out.messages.push((self.clients[ci].id, ServerToClient::UpdateSun(newsun)));
            ci += 1;
        }
        proof {
            assert(msgs_mid == msgs_snap);
            let total = out.messages@.len() as int;
            let ncl_i = old(self).clients@.len() as int;
            assert(total - ncl_i == n_mid);
            assert forall|j: int| 0 <= j < ncl_i implies out.messages@[total - ncl_i + j] == (
                (old(self).clients@[j]).id,
                ServerToClient::UpdateSun(newsun),
            ) by {
                assert(old(self).clients@[((n_mid + j) - n_mid) as int] == old(self).clients@[j]);
                assert(out.messages@[n_mid + j] == (
                    (old(self).clients@[((n_mid + j) - n_mid) as int]).id,
                    ServerToClient::UpdateSun(newsun),
                ));
            }
            assert(self.mobs@ == mobs_stepped);
            assert forall|mi2: int, ci2: int|
                0 <= mi2 < old(self).mobs@.len() && 0 <= ci2 < old(self).clients@.len() implies
                out.messages@.contains(
                (
                    (#[trigger] old(self).clients@[ci2]).id,
                    ServerToClient::UpdateMob(
                        (#[trigger] old(self).mobs@[mi2]).id,
                        self.mobs@[mi2].entity.aabb,
                    ),
                ),
            ) by {
                let j = n_upd + mi2 * ncl0 + ci2;
                lemma_row_index_bound(mi2, ci2, nm as int, ncl0 as int);
                assert(n_rep == n_upd + nm * ncl0);
                assert(n_upd <= j < n_rep);
                assert(msgs_rep[j] == (
                    old(self).clients@[ci2].id,
                    ServerToClient::UpdateMob(
                        old(self).mobs@[mi2].id,
                        mobs_stepped[mi2].entity.aabb,
                    ),
                ));
                assert(msgs_tc[j] == msgs_rep[j]);
                assert(msgs_snap[j] == msgs_tc[j]);
                assert(out.messages@[j] == msgs_mid[j]);
                assert(out.messages@[j] == (
                    old(self).clients@[ci2].id,
                    ServerToClient::UpdateMob(
                        old(self).mobs@[mi2].id,
                        self.mobs@[mi2].entity.aabb,
                    ),
                ));
            }
            assert(self.players@ == players_stepped);
            assert forall|i2: int|
                0 <= i2 < old(self).players@.len() && spec_hits_entities(
                    self.players@,
                    self.mobs@,
                    i2,
                ) implies out.messages@.contains(
                (
                    (#[trigger] old(self).players@[i2]).owner,
                    ServerToClient::Collision(Collision::PlayerMisc(old(self).players@[i2].id)),
                ),
            ) by {
                let k2 = choose|k2: int| 0 <= k2 < misc@.len() && misc@[k2] == i2;
                let j = n_tc + k2;
                assert(msgs_snap[j] == (
                    old(self).players@[i2].owner,
                    ServerToClient::Collision(Collision::PlayerMisc(old(self).players@[i2].id)),
                ));
                assert(out.messages@[j] == msgs_mid[j]);
            }
            assert forall|j: int|
                old(self).players@.len() <= j < out.messages@.len() - old(self).clients@.len()
                    implies is_mob_report(*old(self), self.mobs@, #[trigger] out.messages@[j])
                    || is_collision_report(*old(self), out.messages@[j]) || is_misc_report(
                    *old(self),
                    self.players@,
                    self.mobs@,
                    out.messages@[j],
                ) by {
                assert(out.messages@[j] == msgs_mid[j]);
                if j < n_rep {
                    assert(msgs_snap[j] == msgs_tc[j]);
                    assert(msgs_tc[j] == msgs_rep[j]);
                    assert(is_mob_report(*old(self), mobs_stepped, msgs_rep[j]));
                } else if j < n_tc {
                    let kk = j - n_rep;
                    assert(0 <= collisions@[kk] < n);
                    let w = collisions@[kk] as int;
                    assert(msgs_tc[n_rep + kk] == (
                        old(self).players@[w].owner,
                        ServerToClient::Collision(Collision::PlayerTerrain(
                            old(self).players@[w].id,
                        )),
                    ));
                    assert(msgs_snap[j] == msgs_tc[j]);
                    assert(0 <= w < old(self).players@.len());
                    assert(crate::physics::spec_hits_terrain(
                        players_stepped[w].entity.aabb,
                        terrain@,
                    ));
                    lemma_hits_equiv(
                        old(self).octree,
                        terrain@,
                        spec_stepped_aabb(old(self).players@[w].entity),
                    );
                    assert(out.messages@[j] == (
                        (old(self).players@[w]).owner,
                        ServerToClient::Collision(Collision::PlayerTerrain(
                            old(self).players@[w].id,
                        )),
                    ));
                    assert(is_collision_report(*old(self), out.messages@[j]));
                } else {
                    let kk = j - n_tc;
                    assert(0 <= misc@[kk] < npl);
                    let w = misc@[kk] as int;
                    assert(msgs_snap[n_tc + kk] == (
                        old(self).players@[w].owner,
                        ServerToClient::Collision(Collision::PlayerMisc(
                            old(self).players@[w].id,
                        )),
                    ));
                    assert(spec_hits_entities(self.players@, self.mobs@, w));
                    assert(out.messages@[j] == (
                        (old(self).players@[w]).owner,
                        ServerToClient::Collision(Collision::PlayerMisc(
                            old(self).players@[w].id,
                        )),
                    ));
                    assert(is_misc_report(
                        *old(self),
                        self.players@,
                        self.mobs@,
                        out.messages@[j],
                    ));
                }
            }
        }
        out
    }

    /// Leases the next id to a new connection; the lease is the one and
    /// only answer, sent before anything else from this connection can be
    /// processed.
    fn do_init(&mut self, addr: String) -> (out: Output)
        requires
            old(self).wf(),
        ensures
            final(self).wf(),
            final(self).mobs@ == old(self).mobs@,
            final(self).next_mob == old(self).next_mob,
            if old(self).next_client < u32::MAX {
                let id = ClientId(old(self).next_client);
                &&& final(self).clients@ == old(self).clients@.push(Client { id, addr })
                &&& final(self).next_client == old(self).next_client + 1
                &&& final(self).players@ == old(self).players@ && final(self).octree == old(self).octree && final(self).tracker == old(self).tracker && final(self).sun == old(self).sun && final(self).next_player == old(self).next_player
                &&& out.messages@ == seq![(id, ServerToClient::LeaseId(id))]
                &&& out.tasks@.len() == 0
            } else {
                *final(self) == *old(self) && out.messages@.len() == 0 && out.tasks@.len() == 0
            },
    {
        let mut out = Output { messages: Vec::new(), tasks: Vec::new() };
        if self.next_client == u32::MAX {
            return out;
        }
        let id = ClientId(self.next_client);
        self.clients.push(Client { id, addr });
        self.next_client = self.next_client + 1;
        out.messages.push((id, ServerToClient::LeaseId(id)));
        proof {
            assert(out.messages@ =~= seq![(id, ServerToClient::LeaseId(id))]);
        }
        out
    }

    /// Answers a leased client's ping; an unleased ping is a no-op.
    fn do_ping(&mut self, cid: ClientId) -> (out: Output)
        requires
            old(self).wf(),
        ensures
            final(self).wf(),
            final(self).mobs@ == old(self).mobs@,
            final(self).next_mob == old(self).next_mob,
            *final(self) == *old(self),
            out.tasks@.len() == 0,
            out.messages@ == if spec_has_client(old(self).clients@, cid) {
                seq![(cid, ServerToClient::Ping)]
            } else {
                Seq::<(ClientId, ServerToClient)>::empty()
            },
    {
        let mut out = Output { messages: Vec::new(), tasks: Vec::new() };
        if self.has_client(cid) {
            out.messages.push((cid, ServerToClient::Ping));
            proof {
                assert(out.messages@ =~= seq![(cid, ServerToClient::Ping)]);
            }
        } else {
            proof {
                assert(out.messages@ =~= Seq::<(ClientId, ServerToClient)>::empty());
            }
        }
        out
    }

    /// Spawns a player for a leased client and answers with its id and
    /// spawn point.
    fn do_add_player(&mut self, cid: ClientId) -> (out: Output)
        requires
            old(self).wf(),
        ensures
            final(self).wf(),
            final(self).mobs@ == old(self).mobs@,
            final(self).next_mob == old(self).next_mob,
            if spec_has_client(old(self).clients@, cid) && old(self).next_player < u32::MAX {
                let pid = PlayerId(old(self).next_player);
                let e = (Entity {
                    aabb: spec_spawn_aabb(),
                    velocity: Vec3 { x: 0, y: 0, z: 0 },
                    accel: Vec3 { x: 0, y: 0, z: 0 },
                    jumping: false,
                });
                &&& final(self).players@ == old(self).players@.push(
                    Player { id: pid, owner: cid, entity: e, look: Vec2 { x: 0, y: 0 } },
                )
                &&& final(self).next_player == old(self).next_player + 1
                &&& final(self).clients@ == old(self).clients@ && final(self).octree == old(self).octree && final(self).tracker == old(self).tracker && final(self).sun == old(self).sun && final(self).next_client == old(self).next_client
                &&& out.messages@ == seq![
                    (cid, ServerToClient::PlayerAdded(pid, spec_spawn_aabb().min)),
                ]
                &&& out.tasks@.len() == 0
            } else {
                *final(self) == *old(self) && out.messages@.len() == 0 && out.tasks@.len() == 0
            },
    {
        let mut out = Output { messages: Vec::new(), tasks: Vec::new() };
        if self.next_player == u32::MAX {
            return out;
        }
        if !self.has_client(cid) {
            return out;
        }
        let pid = PlayerId(self.next_player);
        let aabb = spawn_aabb();
        let entity = Entity::spawn(aabb);
        self.players.push(Player { id: pid, owner: cid, entity, look: Vec2 { x: 0, y: 0 } });
        self.next_player = self.next_player + 1;
        out.messages.push((cid, ServerToClient::PlayerAdded(pid, aabb.min)));
        proof {
            assert(out.messages@ =~= seq![
                (cid, ServerToClient::PlayerAdded(pid, spec_spawn_aabb().min)),
            ]);
        }
        out
    }

    /// Folds a `Walk` intent into the named player's acceleration; an
    /// unknown player or an out-of-range delta is discarded.
    fn do_walk(&mut self, pid: PlayerId, dv: Vec3) -> (out: Output)
        requires
            old(self).wf(),
        ensures
            final(self).wf(),
            final(self).mobs@ == old(self).mobs@,
            final(self).next_mob == old(self).next_mob,
            out.messages@.len() == 0 && out.tasks@.len() == 0,
            if spec_has_player(old(self).players@, pid) && dv.is_velocity() {
                let i = spec_player_index(old(self).players@, pid);
                let p = old(self).players@[i];
                let e2 = (Entity {
                    accel: spec_clamp_vel(
                        p.entity.accel.x + dv.x,
                        p.entity.accel.y + dv.y,
                        p.entity.accel.z + dv.z,
                    ),
                    ..p.entity
                });
                &&& final(self).players@ == old(self).players@.update(
                    i,
                    (Player { entity: e2, ..p }),
                )
                &&& final(self).clients@ == old(self).clients@ && final(self).octree == old(self).octree && final(self).tracker == old(self).tracker && final(self).sun == old(self).sun && final(self).next_client == old(self).next_client && final(self).next_player == old(self).next_player
            } else {
                *final(self) == *old(self)
            },
    {
        let out = Output { messages: Vec::new(), tasks: Vec::new() };
        let lim: i64 = SPEED_LIMIT;
        if !(-lim <= dv.x && dv.x <= lim && -lim <= dv.y && dv.y <= lim && -lim <= dv.z && dv.z
            <= lim) {
            return out;
        }
        match self.find_player(pid) {
            None => out,
            Some(i) => {
                let mut p = self.players[i];
                p.entity.apply_walk(dv);
                self.players.set(i, p);
                out
            },
        }
    }

    /// Accumulates a `RotatePlayer` intent into the player's look
    /// direction, clamped; oversized or unknown intents are discarded.
    fn do_rotate(&mut self, pid: PlayerId, r: Vec2) -> (out: Output)
        requires
            old(self).wf(),
        ensures
            final(self).wf(),
            final(self).mobs@ == old(self).mobs@,
            final(self).next_mob == old(self).next_mob,
            out.messages@.len() == 0 && out.tasks@.len() == 0,
            if spec_has_player(old(self).players@, pid) && -ANGLE_LIMIT <= r.x <= ANGLE_LIMIT
                && -ANGLE_LIMIT <= r.y <= ANGLE_LIMIT {
                let i = spec_player_index(old(self).players@, pid);
                let p = old(self).players@[i];
                let look2 = (Vec2 {
                    x: spec_clamp(p.look.x + r.x, ANGLE_LIMIT as int) as i64,
                    y: spec_clamp(p.look.y + r.y, ANGLE_LIMIT as int) as i64,
                });
                final(self).players@ == old(self).players@.update(i, (Player { look: look2, ..p }))
                    && final(self).clients@ == old(self).clients@ && final(self).octree == old(self).octree && final(self).tracker == old(self).tracker && final(self).sun == old(self).sun && final(self).next_client == old(self).next_client && final(self).next_player == old(self).next_player
            } else {
                *final(self) == *old(self)
            },
    {
        let out = Output { messages: Vec::new(), tasks: Vec::new() };
        let lim: i64 = ANGLE_LIMIT;
        if !(-lim <= r.x && r.x <= lim && -lim <= r.y && r.y <= lim) {
            return out;
        }
        match self.find_player(pid) {
            None => out,
            Some(i) => {
                let mut p = self.players[i];
                let nx: i64 = p.look.x + r.x;
                let ny: i64 = p.look.y + r.y;
                p.look = Vec2 {
                    x: if nx < -lim {
                        -lim
                    } else if nx > lim {
                        lim
                    } else {
                        nx
                    },
                    y: if ny < -lim {
                        -lim
                    } else if ny > lim {
                        lim
                    } else {
                        ny
                    },
                };
                self.players.set(i, p);
                out
            },
        }
    }

    /// Sweeps player `i`'s volume against every other entity's.
    #[verifier::loop_isolation(false)]
    fn hits_other_entities(&self, i: usize) -> (r: bool)
        requires
            i < self.players@.len(),
        ensures
            r == spec_hits_entities(self.players@, self.mobs@, i as int),
    {
        let me = self.players[i].entity.aabb;
        let np: usize = self.players.len();
        let mut j: usize = 0;
        while j < np
            invariant
                0 <= j <= np,
                np == self.players@.len(),
                me == self.players@[i as int].entity.aabb,
                forall|j2: int|
                    0 <= j2 < j && j2 != i ==> !me.spec_overlaps(
                        (#[trigger] self.players@[j2]).entity.aabb,
                    ),
            decreases np - j,
        {
            if j != i && me.overlaps(&self.players[j].entity.aabb) {
                return true;
            }
            j += 1;
        }
        let nm2: usize = self.mobs.len();
        let mut k: usize = 0;
        while k < nm2
            invariant
                0 <= k <= nm2,
                nm2 == self.mobs@.len(),
                me == self.players@[i as int].entity.aabb,
                forall|j2: int|
                    0 <= j2 < self.players@.len() && j2 != i ==> !me.spec_overlaps(
                        (#[trigger] self.players@[j2]).entity.aabb,
                    ),
                forall|k2: int|
                    0 <= k2 < k ==> !me.spec_overlaps((#[trigger] self.mobs@[k2]).entity.aabb),
            decreases nm2 - k,
        {
            if me.overlaps(&self.mobs[k].entity.aabb) {
                return true;
            }
            k += 1;
        }
        false
    }

    /// The terrain boxes the physics pass sweeps against: exactly the
    /// generated blocks of the octree, each as a box in world units.
    fn terrain_aabbs(&self) -> (ts: Vec<Aabb>)
        requires
            self.wf(),
        ensures
            forall|j: int| 0 <= j < ts@.len() ==> is_terrain_box(self.octree, #[trigger] ts@[j]),
            forall|bb: Bounds|
                (#[trigger] self.octree.spec_get(bb)) is Some ==> ts@.contains(bb.spec_to_aabb()),
    {
        let leaves = self.octree.generated_leaves();
        let mut ts: Vec<Aabb> = Vec::new();
        let n: usize = leaves.len();
        let mut i: usize = 0;
        while i < n
            invariant
                0 <= i <= n,
                n == leaves@.len(),
                ts@.len() == i,
                forall|j: int|
                    0 <= j < leaves@.len() ==> is_leaf_entry(
                        self.octree.arena(),
                        #[trigger] leaves@[j],
                    ) && leaves@[j].0.wf(),
                forall|j: int|
                    0 <= j < leaves@.len() ==> self.octree.spec_get(
                        (#[trigger] leaves@[j]).0) == Some((leaves@[j].1, leaves@[j].2)),
                forall|j: int| 0 <= j < i ==> ts@[j] == (#[trigger] leaves@[j]).0.spec_to_aabb(),
            decreases n - i,
        {
            ts.push(leaves[i].0.to_aabb());
            i += 1;
        }
        proof {
            assert forall|j: int|
                0 <= j < ts@.len() implies is_terrain_box(self.octree, #[trigger] ts@[j]) by {
                assert(ts@[j] == leaves@[j].0.spec_to_aabb());
                assert(self.octree.spec_get(leaves@[j].0) is Some);
            }
            assert forall|bb: Bounds|
                (#[trigger] self.octree.spec_get(bb)) is Some implies ts@.contains(
                bb.spec_to_aabb()) by {
                let e = found_entry(self.octree.arena(), 0, bb);
                assert(leaves@.contains(e));
                let jj = choose|jj: int| 0 <= jj < leaves@.len() && leaves@[jj] == e;
                assert(ts@[jj] == bb.spec_to_aabb());
            }
        }
        ts
    }

    /// Applies a jump intent: the impulse lands only if the player stands
    /// on terrain, otherwise the intent is noted and nothing moves.
    fn do_start_jump(&mut self, pid: PlayerId) -> (out: Output)
        requires
            old(self).wf(),
        ensures
            final(self).wf(),
            final(self).mobs@ == old(self).mobs@,
            final(self).next_mob == old(self).next_mob,
            out.messages@.len() == 0 && out.tasks@.len() == 0,
            if spec_has_player(old(self).players@, pid) {
                let i = spec_player_index(old(self).players@, pid);
                let p = old(self).players@[i];
                &&& final(self).players@.len() == old(self).players@.len()
                &&& forall|j: int|
                    0 <= j < old(self).players@.len() && j != i ==> final(self).players@[j] == old(self).players@[j]
                &&& final(self).players@[i].id == p.id && final(self).players@[i].owner == p.owner
                    && final(self).players@[i].look == p.look
                &&& final(self).players@[i].entity.aabb == p.entity.aabb
                &&& final(self).players@[i].entity.accel == p.entity.accel
                &&& final(self).players@[i].entity.jumping
                &&& final(self).players@[i].entity.velocity == if spec_on_ground(
                    old(self).octree,
                    p.entity.aabb,
                ) {
                    (Vec3 {
                        x: p.entity.velocity.x,
                        y: JUMP_SPEED,
                        z: p.entity.velocity.z,
                    })
                } else {
                    p.entity.velocity
                }
                &&& final(self).clients@ == old(self).clients@ && final(self).octree == old(self).octree && final(self).tracker == old(self).tracker && final(self).sun == old(self).sun && final(self).next_client == old(self).next_client && final(self).next_player == old(self).next_player
            } else {
                *final(self) == *old(self)
            },
    {
        let out = Output { messages: Vec::new(), tasks: Vec::new() };
        match self.find_player(pid) {
            None => out,
            Some(i) => {
                let terrain = self.terrain_aabbs();
                let mut p = self.players[i];
                p.entity.try_jump(&terrain);
                self.players.set(i, p);
                out
            },
        }
    }

    /// Answers or enqueues every region of one `RequestVoxels` message in
    /// order; nothing happens for an unleased client.
    #[verifier::loop_isolation(false)]
    fn do_request_voxels(&mut self, t: u64, cid: ClientId, voxels: Vec<Bounds>) -> (out: Output)
        requires
            old(self).wf(),
        ensures
            final(self).wf(),
            final(self).mobs@ == old(self).mobs@,
            final(self).next_mob == old(self).next_mob,
            final(self).clients@ == old(self).clients@ && final(self).players@ == old(self).players@ && final(self).octree == old(self).octree && final(self).sun == old(self).sun && final(self).next_client == old(self).next_client && final(self).next_player
                == old(self).next_player,
            if spec_has_client(old(self).clients@, cid) {
                let (m2, replies, tasks) = spec_request_from(
                    old(self).octree,
                    old(self).tracker.model(),
                    voxels@,
                    0,
                    cid,
                    t,
                );
                &&& final(self).tracker.model() == m2
                &&& out.messages@.len() == replies
                &&& out.tasks@ == tasks
                &&& forall|j: int|
                    0 <= j < out.messages@.len() ==> (#[trigger] out.messages@[j]).0 == cid
            } else {
                *final(self) == *old(self) && out.messages@.len() == 0 && out.tasks@.len() == 0
            },
    {
        let mut out = Output { messages: Vec::new(), tasks: Vec::new() };
        if !self.has_client(cid) {
            return out;
        }
        let ghost oct0 = self.octree;
        let ghost m_full = spec_request_from(self.octree, self.tracker.model(), voxels@, 0, cid, t);
        let n: usize = voxels.len();
        let mut i: usize = 0;
        while i < n
            invariant
                0 <= i <= n,
                self.wf(),
                self.clients@ == old(self).clients@,
                self.players@ == old(self).players@,
                self.mobs@ == old(self).mobs@,
                self.next_mob == old(self).next_mob,
                self.octree == old(self).octree,
                self.sun == old(self).sun,
                self.next_client == old(self).next_client,
                self.next_player == old(self).next_player,
                ({
                    let (mr, rr, tr) = spec_request_from(
                        oct0,
                        self.tracker.model(),
                        voxels@,
                        i as int,
                        cid,
                        t,
                    );
                    m_full == (mr, out.messages@.len() + rr, out.tasks@ + tr)
                }),
                forall|j: int|
                    0 <= j < out.messages@.len() ==> (#[trigger] out.messages@[j]).0 == cid,
            decreases n - i,
        {
            let b = voxels[i];
            let ghost tasks_acc = out.tasks@;
            let mut step = self.request_voxel(t, cid, b);
            let ghost step_tasks = step.tasks@;
            out.messages.append(&mut step.messages);
            out.tasks.append(&mut step.tasks);
            proof {
                let (mr2, rr2, tr2) = spec_request_from(
                    oct0,
                    self.tracker.model(),
                    voxels@,
                    i + 1,
                    cid,
                    t,
                );
                assert((tasks_acc + step_tasks) + tr2 =~= tasks_acc + (step_tasks + tr2));
            }
            i += 1;
        }
        proof {
            if spec_has_client(old(self).clients@, cid) {
                let (m2, replies, tasks) = spec_request_from(
                    old(self).octree,
                    old(self).tracker.model(),
                    voxels@,
                    0,
                    cid,
                    t,
                );
                assert(out.tasks@ + Seq::<(Bounds, u8)>::empty() =~= out.tasks@);
            }
        }
        out
    }

    /// Applies a brush edit where the named player stands, regenerating
    /// that cell with `mat` and pushing the change to every client.
    #[verifier::loop_isolation(false)]
    fn do_brush(&mut self, pid: PlayerId, mat: Voxel) -> (out: Output)
        requires
            old(self).wf(),
        ensures
            final(self).wf(),
            final(self).mobs@ == old(self).mobs@,
            final(self).next_mob == old(self).next_mob,
            brush_edit_post(*old(self), *final(self), out.messages@, out.tasks@, pid, mat),
    {
        let mut out = Output { messages: Vec::new(), tasks: Vec::new() };
        match self.find_player(pid) {
            None => out,
            Some(i) => {
                let p = self.players[i];
                let m = p.entity.aabb.min;
                let lim: i64 = ANGLE_LIMIT;
                let sect_raw: i64 = (p.look.x + lim) * 8 / (2 * lim);
                let sect: i64 = if sect_raw >= 8 {
                    7
                } else {
                    sect_raw
                };
                let dx: i64 = if sect == 0 || sect == 1 || sect == 7 {
                    1
                } else if sect == 3 || sect == 4 || sect == 5 {
                    -1
                } else {
                    0
                };
                let dy: i64 = if p.look.y > lim / 3 {
                    1
                } else if p.look.y < -(lim / 3) {
                    -1
                } else {
                    0
                };
                let dz: i64 = if sect == 1 || sect == 2 || sect == 3 {
                    1
                } else if sect == 5 || sect == 6 || sect == 7 {
                    -1
                } else {
                    0
                };
                let a = Vec3 {
                    x: m.x + BRUSH_REACH * dx,
                    y: m.y + BRUSH_REACH * dy,
                    z: m.z + BRUSH_REACH * dz,
                };
                proof {
                    assert(Vec3 { x: dx, y: dy, z: dz } == spec_look_dir(p.look));
                    assert(a == spec_aim_point(p));
                }
                if !(0 <= a.x && a.x < 0x4000_0000 && 0 <= a.y && a.y < 0x4000_0000 && 0 <= a.z
                    && a.z < 0x4000_0000) {
                    return out;
                }
                let c = Bounds { x: a.x as u32, y: a.y as u32, z: a.z as u32, lg_size: 0 };
                if !c.check_wf() {
                    return out;
                }
                let root = self.octree.root();
                if !inside(&c, &root) {
                    return out;
                }
                self.octree.coarsen(c);
                let ghost oct_mid = self.octree;
                self.octree.insert_or_replace(c, 0, mat);
                proof {
                    assert forall|b2: Bounds|
                        !spec_inside(b2, c) && !spec_inside(c, b2) implies #[trigger] self
                        .octree.spec_get(b2) == old(self).octree.spec_get(b2) by {
                        assert(self.octree.spec_get(b2) == oct_mid.spec_get(b2));
                        assert(oct_mid.spec_get(b2) == old(self).octree.spec_get(b2));
                    }
                }
                let n: usize = self.clients.len();
                let mut j: usize = 0;
                while j < n
                    invariant
                        0 <= j <= n,
                        out.messages@.len() == j,
                        out.tasks@.len() == 0,
                        forall|jj: int|
                            0 <= jj < j ==> (#[trigger] out.messages@[jj]).0
                                == self.clients@[jj].id && (out.messages@[jj].1 matches
                            ServerToClient::Voxels { voxels: vs, reason } && vs@ == seq![(c, mat)]
                                && reason == VoxelReason::Updated),
                    decreases n - j,
                {
                    out.messages.push(
                        (
                            self.clients[j].id,
                            ServerToClient::Voxels {
                                voxels: vec![(c, mat)],
                                reason: VoxelReason::Updated,
                            },
                        ),
                    );
                    j += 1;
                }
                out
            },
        }
    }

    /// Withdraws a jump intent.
    fn do_stop_jump(&mut self, pid: PlayerId) -> (out: Output)
        requires
            old(self).wf(),
        ensures
            final(self).wf(),
            final(self).mobs@ == old(self).mobs@,
            final(self).next_mob == old(self).next_mob,
            out.messages@.len() == 0 && out.tasks@.len() == 0,
            if spec_has_player(old(self).players@, pid) {
                let i = spec_player_index(old(self).players@, pid);
                let p = old(self).players@[i];
                final(self).players@ == old(self).players@.update(
                    i,
                    (Player { entity: Entity { jumping: false, ..p.entity }, ..p }),
                ) && final(self).clients@ == old(self).clients@ && final(self).octree == old(self).octree && final(self).tracker == old(self).tracker && final(self).sun == old(self).sun && final(self).next_client == old(self).next_client && final(self).next_player == old(self).next_player
            } else {
                *final(self) == *old(self)
            },
    {
        let out = Output { messages: Vec::new(), tasks: Vec::new() };
        match self.find_player(pid) {
            None => out,
            Some(i) => {
                let mut p = self.players[i];
                p.entity.stop_jump();
                self.players.set(i, p);
                out
            },
        }
    }
}

} // verus!
