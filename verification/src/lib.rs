//! Server core of a multiplayer voxel world.
//!
//! The server owns the authoritative terrain and entity state.  Clients speak
//! the message protocol in [`protocol`]; terrain lives in a level-of-detail
//! octree ([`octree`]) keyed by [`space::Bounds`]; concurrent generation
//! requests are deduplicated by [`tracker`]; per-player level-of-detail
//! decisions with hysteresis live in [`lod`]; entity motion and collision in
//! [`physics`]; and [`server`] ties the pieces together into the per-tick
//! state machine that a host loop drives.

pub mod lod;
pub mod octree;
pub mod physics;
pub mod protocol;
pub mod server;
pub mod space;
pub mod tracker;
