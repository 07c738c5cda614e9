use playform_server::physics::{Entity, JUMP_SPEED};
use playform_server::protocol::{
    ClientId, ClientToServer, Collision, MobId, PlayerId, ServerToClient, Voxel, VoxelReason,
};
use playform_server::server::{Server, ANGLE_LIMIT, BRUSH_REACH, SUN_CYCLE};
use playform_server::space::{Aabb, Bounds, Vec2, Vec3};

fn boxed(x0: i64, y0: i64, z0: i64, x1: i64, y1: i64, z1: i64) -> Aabb {
    Aabb { min: Vec3 { x: x0, y: y0, z: z0 }, max: Vec3 { x: x1, y: y1, z: z1 } }
}

#[test]
fn step_moves_by_velocity_and_drains_accel() {
    let mut e = Entity::spawn(boxed(0, 20, 0, 10, 30, 10));
    e.apply_walk(Vec3 { x: 3, y: 0, z: -2 });
    let hit = e.step(&Vec::new());
    assert!(!hit);
    assert_eq!(e.aabb, boxed(3, 20, -2, 13, 30, 8));
    assert_eq!(e.velocity, Vec3 { x: 3, y: 0, z: -2 });
    assert_eq!(e.accel, Vec3 { x: 0, y: 0, z: 0 });
}

#[test]
fn terrain_hit_is_reported_and_overlaps_at_tick_end() {
    let ground = boxed(-100, -10, -100, 100, 10, 100);
    let terrain = vec![ground];
    let mut e = Entity::spawn(boxed(0, 12, 0, 10, 22, 10));
    e.apply_walk(Vec3 { x: 0, y: -5, z: 0 });
    let hit = e.step(&terrain);
    assert!(hit, "sinking into the ground must be reported");
    assert!(e.aabb.overlaps(&ground), "the reported terrain overlaps the volume at tick end");
    assert_eq!(e.velocity, Vec3 { x: 0, y: 0, z: 0 }, "contact zeroes the velocity");
}

#[test]
fn jump_needs_ground() {
    let ground = boxed(-100, -10, -100, 100, 10, 100);
    let terrain = vec![ground];
    let mut grounded = Entity::spawn(boxed(0, 11, 0, 10, 21, 10));
    assert!(grounded.try_jump(&terrain), "terrain just underfoot makes the entity grounded");
    assert_eq!(grounded.velocity.y, JUMP_SPEED);
    assert!(grounded.jumping);
    let mut airborne = Entity::spawn(boxed(0, 500, 0, 10, 510, 10));
    assert!(!airborne.try_jump(&terrain), "an airborne jump request is ignored");
    assert_eq!(airborne.velocity.y, 0);
    assert!(airborne.jumping, "the intent is still noted");
    airborne.stop_jump();
    assert!(!airborne.jumping);
}

#[test]
fn tick_advances_sun_and_reports_positions() {
    let mut s = Server::new(Bounds { x: 0, y: 0, z: 0, lg_size: 20 });
    s.handle(ClientToServer::Init(String::from("addr")));
    s.handle(ClientToServer::AddPlayer(ClientId(1)));
    s.handle(ClientToServer::Walk(PlayerId(1), Vec3 { x: 4, y: 0, z: 0 }));
    let before = s.players[0].entity.aabb;
    let out = s.tick(100);
    assert_eq!(s.sun, 100);
    assert_eq!(s.players[0].entity.aabb.min.x, before.min.x + 4);
    match &out.messages[0] {
        (cid, ServerToClient::UpdatePlayer(pid, aabb)) => {
            assert_eq!(*cid, ClientId(1));
            assert_eq!(*pid, PlayerId(1));
            assert_eq!(*aabb, s.players[0].entity.aabb);
        },
        other => panic!("expected UpdatePlayer, got {:?}", other),
    }
    match &out.messages[out.messages.len() - 1] {
        (cid, ServerToClient::UpdateSun(v)) => {
            assert_eq!(*cid, ClientId(1));
            assert_eq!(*v, 100);
        },
        other => panic!("expected UpdateSun, got {:?}", other),
    }
}

#[test]
fn sun_wraps_at_cycle_end() {
    let mut s = Server::new(Bounds { x: 0, y: 0, z: 0, lg_size: 20 });
    s.tick(SUN_CYCLE - 1);
    assert_eq!(s.sun, SUN_CYCLE - 1);
    s.tick(2);
    assert_eq!(s.sun, 1);
}

#[test]
fn walk_with_oversized_delta_is_discarded() {
    let mut s = Server::new(Bounds { x: 0, y: 0, z: 0, lg_size: 20 });
    s.handle(ClientToServer::Init(String::from("addr")));
    s.handle(ClientToServer::AddPlayer(ClientId(1)));
    s.handle(ClientToServer::Walk(PlayerId(1), Vec3 { x: i64::MAX, y: 0, z: 0 }));
    assert_eq!(s.players[0].entity.accel, Vec3 { x: 0, y: 0, z: 0 });
    s.handle(ClientToServer::Walk(PlayerId(9), Vec3 { x: 1, y: 0, z: 0 }));
    assert_eq!(s.players[0].entity.accel, Vec3 { x: 0, y: 0, z: 0 });
}

#[test]
fn brush_edit_rewrites_the_looked_at_cell() {
    let mut s = Server::new(Bounds { x: 0, y: 0, z: 0, lg_size: 20 });
    s.handle(ClientToServer::Init(String::from("addr")));
    s.handle(ClientToServer::AddPlayer(ClientId(1)));
    let feet = s.players[0].entity.aabb.min;
    // a fresh player's neutral look faces the negative x direction
    let cell = Bounds {
        x: (feet.x - BRUSH_REACH) as u32,
        y: feet.y as u32,
        z: feet.z as u32,
        lg_size: 0,
    };
    let out = s.handle(ClientToServer::Add(PlayerId(1)));
    assert_eq!(s.octree.lookup(cell), Some((0, Voxel::Volume(1))));
    assert_eq!(out.messages.len(), 1);
    match &out.messages[0] {
        (cid, ServerToClient::Voxels { voxels, reason }) => {
            assert_eq!(*cid, ClientId(1));
            assert_eq!(voxels.as_slice(), &[(cell, Voxel::Volume(1))]);
            assert!(matches!(reason, VoxelReason::Updated));
        },
        other => panic!("expected Voxels, got {:?}", other),
    }
    s.handle(ClientToServer::Remove(PlayerId(1)));
    assert_eq!(s.octree.lookup(cell), Some((0, Voxel::Volume(0))));
}

#[test]
fn brush_target_follows_the_look_direction() {
    let mut s = Server::new(Bounds { x: 0, y: 0, z: 0, lg_size: 20 });
    s.handle(ClientToServer::Init(String::from("addr")));
    s.handle(ClientToServer::AddPlayer(ClientId(1)));
    s.handle(ClientToServer::RotatePlayer(PlayerId(1), Vec2 { x: ANGLE_LIMIT, y: 0 }));
    let feet = s.players[0].entity.aabb.min;
    // the topmost yaw sector faces positive x and negative z
    let cell = Bounds {
        x: (feet.x + BRUSH_REACH) as u32,
        y: feet.y as u32,
        z: (feet.z - BRUSH_REACH) as u32,
        lg_size: 0,
    };
    s.handle(ClientToServer::Add(PlayerId(1)));
    assert_eq!(s.octree.lookup(cell), Some((0, Voxel::Volume(1))));
    let untouched = Bounds { x: feet.x as u32, y: feet.y as u32, z: feet.z as u32, lg_size: 0 };
    assert_eq!(s.octree.lookup(untouched), None, "the standing cell itself is not the target");
}

#[test]
fn mobs_step_and_are_reported() {
    let mut s = Server::new(Bounds { x: 0, y: 0, z: 0, lg_size: 20 });
    s.handle(ClientToServer::Init(String::from("addr")));
    let id = s.spawn_mob(boxed(1000, 50, 1000, 1010, 60, 1010)).expect("spawn");
    assert_eq!(id, MobId(1));
    let out = s.tick(1);
    let reported = out.messages.iter().any(|m| {
        matches!(m, (ClientId(1), ServerToClient::UpdateMob(MobId(1), _)))
    });
    assert!(reported, "every client hears where the mob is");
    assert!(s.spawn_mob(boxed(5, 5, 5, 5, 5, 5)).is_none(), "degenerate volumes are refused");
}

#[test]
fn tick_policy_requests_regeneration_for_mismatched_level() {
    let mut s = Server::new(Bounds { x: 0, y: 0, z: 0, lg_size: 20 });
    s.handle(ClientToServer::Init(String::from("addr")));
    s.handle(ClientToServer::AddPlayer(ClientId(1)));
    let b = Bounds { x: 60, y: 60, z: 60, lg_size: 2 };
    let out = s.handle(ClientToServer::RequestVoxels {
        time_requested_ns: 1,
        client_id: ClientId(1),
        voxels: vec![b],
    });
    assert_eq!(out.tasks.as_slice(), &[(b, 2)]);
    s.complete_generation(b, 2, Voxel::Volume(1));
    let out = s.tick(1);
    assert!(
        out.tasks.iter().any(|t| *t == (b, 0)),
        "a coarse block right next to the player is queued for regeneration at the finest level"
    );
}

#[test]
fn overlapping_players_get_misc_collision_reports() {
    let mut s = Server::new(Bounds { x: 0, y: 0, z: 0, lg_size: 20 });
    s.handle(ClientToServer::Init(String::from("addr-1")));
    s.handle(ClientToServer::Init(String::from("addr-2")));
    s.handle(ClientToServer::AddPlayer(ClientId(1)));
    s.handle(ClientToServer::AddPlayer(ClientId(2)));
    let out = s.tick(1);
    let first = out.messages.iter().any(|m| {
        matches!(m, (ClientId(1), ServerToClient::Collision(Collision::PlayerMisc(PlayerId(1)))))
    });
    let second = out.messages.iter().any(|m| {
        matches!(m, (ClientId(2), ServerToClient::Collision(Collision::PlayerMisc(PlayerId(2)))))
    });
    assert!(first && second, "two players sharing the spawn point collide with each other");
    let terrain = out.messages.iter().any(|m| {
        matches!(m, (_, ServerToClient::Collision(Collision::PlayerTerrain(_))))
    });
    assert!(!terrain, "no terrain is generated, so no terrain collision is reported");
}

#[test]
fn policy_regeneration_updates_every_client() {
    let mut s = Server::new(Bounds { x: 0, y: 0, z: 0, lg_size: 20 });
    s.handle(ClientToServer::Init(String::from("addr-1")));
    s.handle(ClientToServer::Init(String::from("addr-2")));
    s.handle(ClientToServer::AddPlayer(ClientId(1)));
    let b = Bounds { x: 60, y: 60, z: 60, lg_size: 2 };
    s.handle(ClientToServer::RequestVoxels {
        time_requested_ns: 1,
        client_id: ClientId(1),
        voxels: vec![b],
    });
    s.complete_generation(b, 2, Voxel::Volume(1));
    let out = s.tick(1);
    assert!(out.tasks.iter().any(|t| *t == (b, 0)));
    let out = s.complete_generation(b, 0, Voxel::Volume(2));
    let mut told = vec![false, false];
    for (cid, msg) in &out.messages {
        if let ServerToClient::Voxels { voxels, reason } = msg {
            assert_eq!(voxels.as_slice(), &[(b, Voxel::Volume(2))]);
            assert!(matches!(reason, VoxelReason::Updated));
            told[(cid.0 - 1) as usize] = true;
        }
    }
    assert!(told[0] && told[1], "a policy-driven regeneration reaches every client");
}

#[test]
fn client_id_default_and_add() {
    let base = ClientId::default();
    assert_eq!(base, ClientId(0));
    assert_eq!(base.add(3), ClientId(3));
    assert_eq!(ClientId(7).add(1), ClientId(8));
}
