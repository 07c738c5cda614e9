use playform_server::lod::{desired_lod, nearest_distance, update_lod, LOD_NEAR, NO_PLAYER_DISTANCE};
use playform_server::protocol::{ClientId, VoxelReason};
use playform_server::space::{Bounds, Vec3};
use playform_server::tracker::Tracker;

#[test]
fn duplicate_requests_attach_to_one_record() {
    let mut tr = Tracker::new();
    let b = Bounds { x: 1, y: 1, z: 1, lg_size: 2 };
    assert!(tr.request(b, 2, ClientId(1), VoxelReason::Requested { at: 10 }));
    assert!(!tr.request(b, 2, ClientId(2), VoxelReason::Requested { at: 20 }));
    assert!(!tr.request(b, 2, ClientId(3), VoxelReason::Updated));
    assert!(tr.is_tracked(b, 2));
    assert!(
        tr.request(b, 3, ClientId(1), VoxelReason::Updated),
        "a different level of detail is a different unit of work"
    );
    let ws = tr.complete(b, 2).expect("record must exist");
    assert_eq!(ws.len(), 3);
    assert_eq!(ws[0].client, ClientId(1));
    assert!(matches!(ws[0].reason, VoxelReason::Requested { at: 10 }));
    assert_eq!(ws[1].client, ClientId(2));
    assert!(matches!(ws[1].reason, VoxelReason::Requested { at: 20 }));
    assert_eq!(ws[2].client, ClientId(3));
    assert!(matches!(ws[2].reason, VoxelReason::Updated));
    assert!(!tr.is_tracked(b, 2));
    assert!(tr.complete(b, 2).is_none(), "the record is destroyed on completion");
    assert!(tr.is_tracked(b, 3));
}

#[test]
fn desired_lod_steps_with_distance() {
    assert_eq!(desired_lod(0), 0);
    assert_eq!(desired_lod(0x3ff), 0);
    assert_eq!(desired_lod(0x400), 1);
    assert_eq!(desired_lod(0xfff), 1);
    assert_eq!(desired_lod(0x1000), 2);
    assert_eq!(desired_lod(0x4000), 3);
    assert_eq!(desired_lod(u64::MAX), 3);
}

#[test]
fn hysteresis_stops_oscillation_after_first_change() {
    let below = LOD_NEAR - 0x80;
    let above = LOD_NEAR + 0x80;
    let l1 = update_lod(3, below);
    assert_eq!(l1, 0, "a far level refines once the player is clearly close");
    assert_eq!(update_lod(l1, above), l1, "oscillating inside the band changes nothing");
    assert_eq!(update_lod(l1, below), l1);
    let l2 = update_lod(1, above);
    assert_eq!(update_lod(l2, below), l2);
    assert_eq!(update_lod(l2, above), l2);
}

#[test]
fn clear_departure_still_coarsens() {
    assert_eq!(update_lod(0, LOD_NEAR + 0x100), 1);
    assert_eq!(update_lod(1, 0x4000 + 0x1000), 3);
}

#[test]
fn nearest_distance_is_the_minimum() {
    let c = Vec3 { x: 0, y: 0, z: 0 };
    let players = vec![
        Vec3 { x: 100, y: 0, z: 0 },
        Vec3 { x: 3, y: -4, z: 2 },
        Vec3 { x: -50, y: 0, z: 0 },
    ];
    assert_eq!(nearest_distance(&players, c), 4);
    assert_eq!(nearest_distance(&Vec::new(), c), NO_PLAYER_DISTANCE);
}
