//! Messages passed between client and server, and the identifiers they carry.
//!
//! Every message is self-describing: it carries the client or entity
//! identifier it concerns, so the receiver needs no connection-scoped side
//! state beyond those fields to interpret it.  Movement messages are intents,
//! never absolute state; the server owns authoritative positions.

use vstd::prelude::*;
use crate::space::{Aabb, Bounds, Vec2, Vec3};

verus! {

/// Unique client ID, leased by the server in response to `Init`.
///
/// `ClientId::default()` is the sentinel for "not yet leased"; real leases
/// start above it and are totally ordered, so the id serves as a map key and
/// gives a stable iteration order.
#[derive(Copy, Clone, PartialEq, Eq, Structural, PartialOrd, Ord, Hash, Debug)]
pub struct ClientId(pub u32);

impl Default for ClientId {
    /// The sentinel id of a connection that holds no lease yet.
    fn default() -> (r: ClientId)
        ensures
            r == ClientId(0),
    {
        ClientId(0)
    }
}

impl ClientId {
    /// The id `rhs` places after this one; the server leases ids in sequence.
    pub fn add(self, rhs: u32) -> (r: ClientId)
        requires
            self.0 + rhs <= u32::MAX,
        ensures
            r == ClientId((self.0 + rhs) as u32),
    {
        let ClientId(i) = self;
        ClientId(i + rhs)
    }
}

/// Unique id of a player entity, scoped to one running server.
#[derive(Copy, Clone, PartialEq, Eq, Structural, PartialOrd, Ord, Hash, Debug)]
pub struct PlayerId(pub u32);

/// Unique id of a mob entity, scoped to one running server.
#[derive(Copy, Clone, PartialEq, Eq, Structural, PartialOrd, Ord, Hash, Debug)]
pub struct MobId(pub u32);

/// Contents of one generated terrain region: a uniform volume of a material,
/// or a surface sample.  Immutable once produced; regeneration at another
/// level of detail supersedes rather than mutates it.
#[derive(Copy, Clone, PartialEq, Eq, Structural, Debug)]
pub enum Voxel {
    /// The whole region is one material.
    Volume(u32),
    /// The region meets the terrain surface; the payload encodes the sample.
    Surface(u32),
}

/// Messages the client sends to the server.
#[derive(Clone, PartialEq, Eq, Debug)]
pub enum ClientToServer {
    /// Notify the server that the client exists, and provide a "return
    /// address" for pushes.  Mandatory first message of every connection.
    Init(String),
    /// Ping.
    Ping(ClientId),
    /// Ask the server to create a new player.
    AddPlayer(ClientId),
    /// Add a vector to the player's acceleration.
    Walk(PlayerId, Vec3),
    /// Rotate the player by some amount.
    RotatePlayer(PlayerId, Vec2),
    /// [Try to] start a jump for the player.
    StartJump(PlayerId),
    /// [Try to] stop a jump for the player.
    StopJump(PlayerId),
    /// Ask the server to send blocks of terrain.
    RequestVoxels {
        /// The time, in nanoseconds, when the voxels were requested.
        time_requested_ns: u64,
        /// The ID of the requesting client.
        client_id: ClientId,
        /// The bounds of the voxels to fetch.
        voxels: Vec<Bounds>,
    },
    /// Brush-add at where the player's looking.
    Add(PlayerId),
    /// Brush-remove where the player's looking.
    Remove(PlayerId),
}

/// Why a block is being sent to a client.
#[derive(Copy, Clone, PartialEq, Eq, Structural, Debug)]
pub enum VoxelReason {
    /// The client asked for it.
    Requested {
        /// The time, in nanoseconds, when the voxels were requested.
        at: u64,
    },
    /// The block has been updated.
    Updated,
}

/// Collision events.  The id is the "collider"; the variant names the
/// collidee's category.
#[derive(Copy, Clone, PartialEq, Eq, Structural, Debug)]
pub enum Collision {
    /// The player ran into terrain.
    PlayerTerrain(PlayerId),
    /// The player ran into another entity.
    PlayerMisc(PlayerId),
}

/// Messages the server sends to the client.
#[derive(Clone, PartialEq, Eq, Debug)]
pub enum ServerToClient {
    /// Provide the client a unique id to tag its messages.
    LeaseId(ClientId),
    /// Ping.
    Ping,
    /// Complete an AddPlayer request.
    PlayerAdded(PlayerId, Vec3),
    /// Update a player's position.
    UpdatePlayer(PlayerId, Aabb),
    /// Update the client's view of a mob.
    UpdateMob(MobId, Aabb),
    /// The sun's position as a portion of its cycle, out of [`crate::server::SUN_CYCLE`].
    UpdateSun(u32),
    /// Provide blocks of terrain to a client.
    Voxels {
        /// The voxels sent, with their bounds.
        voxels: Vec<(Bounds, Voxel)>,
        /// The reason the voxels are being sent.
        reason: VoxelReason,
    },
    /// A collision happened.
    Collision(Collision),
}

} // verus!
